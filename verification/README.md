# pqcutils

Auditing post-quantum key exchange in SSH and TLS, as a verified library
with two thin programs around it.

- `src/` is the library, verified with Verus: TLS hello and SSH KEXINIT
  parsing (`tls_wire`, `ssh`), TCP segment joining (`tcp`), following a
  capture packet by packet (`capture`, `tls`, `net`), summarising what a
  capture showed host by host (`summary`, `endpoint`), and combining active
  scan results into CSV and XML reports (`scan_report`, `scan_input`).
  `laws` holds the properties that span several functions.
- `app/` holds the command-line programs: started as `pqcscan` it creates
  reports from scan files; otherwise it analyses a capture file (`pqcdump`).
  The algorithm tables (`kex_algos.json`, `tls_groups.json`,
  `tls_cipher_suites.json`) and the HTML templates (`templates/`) are read
  from the directory named by `PQCUTILS_SUPPORT`, `support` by default.
- `tests/` exercises the library on concrete captures, hellos and reports.
