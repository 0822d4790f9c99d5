# axii

The verified core of the Axii script extender for The Witcher 3.

- `src/` is the library, verified with Verus:
  - `pattern`: wildcard byte-pattern search (`0xFF` matches any byte);
  - `image`: the game image, its PE section table, scans and relative addresses;
  - `offsets`: the symbol map (`SEGMENT:OFFSET` in hexadecimal) and symbol resolution;
  - `hook`: the byte encodings of the jump patches that install hooks;
  - `wide`: NUL-terminated UTF-16 names for the game's names pool;
  - `plugins`: which files of the plugin directory are plugins;
  - `steam`: finding the game in the Steam library.
- `app/` is the Windows side: the `dinput8.dll` proxy, the loader, the SDK
  bindings, hook installation, the test plugin and the install-and-run helper.
  It reads memory, files and the registry and hands plain values to the library.
- `tests/` runs the library on concrete images, maps and names.
