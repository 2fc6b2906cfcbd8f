# civicsense-data-pack

Schema and validators for the CivicSense training data: the seven-class label
vocabulary, YOLO label files, and the `images/` ↔ `labels/` training layout.

- `src/` is the verified library (Verus). `classes` holds the vocabulary,
  `text` splits label text into numbered lines and fields, `yolo` validates
  label records, `file_name` handles stems and extensions, and `dataset`
  validates a training layout given as directory listings.
- `app/` is the `civicsense-data` command line: it reads directories and files,
  reads label fields as single-precision numbers, and hands plain values to
  the library.
- `tests/` exercises the library on concrete inputs.
