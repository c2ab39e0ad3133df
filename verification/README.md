# assets_manager

A static asset server: files are uploaded under a version tag and served at
`/<tag>/<path>` from one storage directory.

- `src/` is the library, every function with a proved contract: how request paths are
  normalized and kept inside the storage directory (`paths`, `storage`,
  `assets`, `upload`, `tags`), the bearer-token check (`auth_guard`), the
  configuration check (`config`), and the answers of the endpoints
  (`health`, `host`, `tags`).
- `app/` is the Rocket server around it: routes, request guards, JSON bodies,
  environment and file system access.
- `tests/` exercises the library.
