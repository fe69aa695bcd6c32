# serial_udp_forwarder

Forwards delimited messages from a serial port to a UDP endpoint.

- `src/` is the library: everything the forwarder decides, with contracts that
  Verus proves.
  - `args` – what the user asks for
  - `numbers`, `terminator` – numbers and delimiters as they are typed
  - `ports`, `select` – listing serial ports and choosing one
  - `framing`, `rewrite` – cutting the byte stream into messages, and the
    optional rewriting of JSON messages
  - `reader` – what is shown, logged and queued for each message
  - `ring` – the bounded queue that drops its oldest message when it is full
  - `writer`, `stats` – what follows a send, and the line of statistics
  - `serial`, `session` – the settings of the port and the parts of a run
  - `subseq`, `text` – searching and text
- `app/` is the program around it: the command line, the serial port, the socket,
  the log file and the tasks.
- `tests/` runs the library.

Believed without proof are `str::from_utf8`, `str::to_lowercase` and
`tokio_serial::new`, each behind one function that says what is believed.
