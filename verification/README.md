# clash_verge_service

The helper service of Clash Verge: it launches and stops the clash core on
request, remembers what it launched, and on macOS points the default network
service at the proxy's DNS server and back.

- `src/` is the library, verified with Verus: reading `networksetup` output
  (`networksetup`), finding the interface of the default route (`route`), the
  clash core's launch and status (`clash`), the DNS bookkeeping (`dns`), the
  version answer (`version`), the installers' decisions (`install`) and the
  character-level text handling they share (`text`).
- `app/` is the executable: request handlers with their process-wide state,
  command execution, and the installer and uninstaller.
- `tests/` runs the library on concrete inputs.
