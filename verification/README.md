# paddle_desktop

The logic of the 大梨OCR desktop client's local file-exchange server,
verified with Verus: a phone on the same network uploads notes and files to
the computer, and the computer shares files back.

`src/` is the verified library:

- `text` — the `str` operations used (`trim`, `find`, `split`, `lines`, ...)
  as specifications with executable counterparts;
- `mime` — content type of a static asset from its path;
- `lan` — which addresses count as physical LAN addresses, reading them out
  of `ifconfig` / `ipconfig` output, and their order of preference;
- `multipart` — the boundary of a `Content-Type` and the parts of a
  `multipart/form-data` body;
- `ids` — item identifiers;
- `store` — the received and shared stores (newest first, bounded);
- `exchange` — uploads, JSON notes and shares;
- `reply`, `server` — routing and the answers to each request; a static
  path that would name something outside the asset directory (its `..`
  segments climb above it; on Windows also a leading backslash or a drive
  letter) is refused with 404;
- `formdata` — how a browser writes a form, and the proof that the parser
  reads such a body back as the fields it was written from. For ASCII field
  names this rests on `str::to_lowercase` and `String::from_utf8_lossy`
  doing what their documentation says on ASCII text and well-formed UTF-8;
  for other names the law also assumes that lowercasing leaves the header
  line recognisable;
- `laws` — properties across operations;
- `external` — the trusted calls into std and outside crates.

`app/` is the Tauri shell and the HTTP loop that performs the I/O and asks
the library what to do. `tests/` runs the library on concrete inputs.
