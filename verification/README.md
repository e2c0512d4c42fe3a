# file_tools

Verified core of a desktop file tool: encoding files as self-describing
Base64 text (file name, MD5, Base64 body) and restoring them, human-readable
sizes, and splitting files into numbered parts and merging them back.

- `src/` — the library, verified with Verus:
  - `envelope.rs`: the encoded-text format, its parser and its laws (what is
    encoded decodes back; the header check agrees with full decoding; a
    decoded body always matches its digest; the digest line is read up to
    ASCII case; whitespace inserted into a body changes nothing).
  - `codec.rs`: the calls into `md-5`, `hex`, `base64` and `std::path`, each
    behind one wrapper whose contract states what the crate documents,
    including the file name of any path that reads alike on every platform.
  - `size_label.rs`: `fsize`, exact integer rendition of the float labels.
  - `parts.rs`: part names, chunk sizes, split progress, the search for
    parts, merge base names, and their laws (part names are distinct; a
    part, also under folders, gives back the split file's name).
  - `batch.rs`: batch checks, report messages, payload names, byte sizes
    (a folder grows by each added file), zip entry names, clipboard labels,
    and whether a path lies inside a folder.
  - `text.rs`: numerals, whitespace, trimming and searching over characters.
- `app/` — file system, clipboard, zip writing and temporary directories
  around the library.
- `tests/` — scenarios and cases run against the compiled library.
