# icon_finder

Find the path to a Linux application's icon by name and resolution, in the icon
themes of XDG desktops. The library is written in Verus: what it returns is
stated in contracts and proved.

- `src/` is the library. It decides which paths to ask about and what follows
  from the answers; probes that its callers hand it do the asking. The contracts
  say which answers lead to which result, whatever the probes answer; and that,
  for probes that answer as one state of the file system does, the icon found is
  the first of the files searched that is present.
- `tests/` runs the library on file systems in memory and on the real one.
- `app/` is the command-line program, with the probes of the real system.

```bash
icon_finder firefox 128
# /usr/share/icons/hicolor/128x128/apps/firefox.png
```
