# Revault

A secure vault in a single file: encrypted blocks, a tamper-evident and signed
history of changes, and optional sharing with peers over the network.

* `src/` is the library, in Verus. Every function carries a contract that is
  proved, down to a few calls into cryptography crates and the standard library
  whose behaviour is stated next to the call.
  * `engine`: the container format, the block allocator, the cryptography, and
    the vault. A vault works on an image of its container; what a change wrote
    is handed out as byte ranges.
  * `net`: invite codes, the handshake and the encrypted channel, the messages,
    the patch journal, and what each side of a sync says.
  * `tui`: the state of the terminal application and what each key does to it.
  * `cli`: the commands of a serving session.
* `app/` is the `revault` program around it: files, sockets, threads, the
  command line and the drawing.
* `tests/` runs the library on concrete values.

The laws that hold across several operations are the `law_` functions: what is
written is read back, other files are untouched, only the admin changes
anything, a granted peer opens the vault and a revoked one does not, a patch
replayed on a replica reproduces the change.
