# masking_room

A masking room takes confidential fragments out of texts and puts tokens in their place. The
fragments stay in the room, encrypted, and come back only on a request that names its purpose.
Everything that happens is entered into a log whose records are chained by hashes.

- `src/` is the library. Everything in it is verified with Verus: the contracts say what each
  function returns, and the laws that span several functions stand as proof functions, most of
  them in the modules whose names end in `_laws` or `_text`.
- `tests/` runs the library on concrete values.
- `app/` is the program around it: arguments, files, and the web interface.

SHA-256, HMAC, AES-GCM, regular expressions, random numbers, the clock, the hexadecimal text of
log hashes (`hex::encode`), the quoting of JSON strings (`serde_json::to_string`) and the reading
of sealed payloads come from outside the library. The functions that call them are marked
`external_body`, and what is taken for granted of each is said above it.
