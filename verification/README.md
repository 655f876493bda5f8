# yalt

yalt (yet another labeling tool) labels image datasets for object detection, polygon
segmentation and image classification. A project lives beside its images, in
`<dataset>/.yalt/project.sqlite`.

## Layout

- `src/` is the library, written in Verus and verified. It holds the project model (`project`:
  classes, images, labels, annotations, drafts and the operation history) and every rule that
  changes it, each with a contract:
  - `project`: creating a project, indexing the files of a dataset, the image list, summaries;
  - `workspace`: moving images into `deleted/` and back, undo and redo, recovery of interrupted
    moves;
  - `detection` and `segmentation`: classes, boxes, polygons, drafts, and the matching, import
    and export plans of YOLO and COCO files;
  - `classification`: single- and multi-label classes, class directories, CSV reading and writing;
  - `imaging`: the EXIF orientation of a file, upright images, display bytes and thumbnails, through
    the `image` and `kamadak-exif` crates;
  - `recents`, `migrations`, `paths`, `text`: the recent-projects list, schema upgrades, relative
    paths and text helpers.

  Laws that span several operations are public proof functions named `law_*`: undo and redo of
  annotation edits, the history flags and undo followed by redo, deleting an annotation and undoing
  it, recovery of deleted images, re-labelling and single-label filing, the CSV round trip,
  re-indexing, and imports.
- `app/` is the shell around the library: the SQLite database, the file system, floating-point
  geometry, and the JSON shapes of the user interface.
- `tests/` exercises the library on concrete projects.
