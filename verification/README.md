# Minara

A web panel for Minecraft Bedrock servers: instances, their settings and files,
backups that follow an instance through renames, and the servers themselves.

- `src/` is the library: every rule of the panel, with contracts that Verus proves.
  It performs no input or output. A handler is a function of a request and of the
  replies so far; it asks for one more effect or gives its answer.
- `app/` is the program: it serves the routes, performs the effects and renders the
  pages.
- `tests/` runs the library on concrete values.

The public proof functions whose names start with `law_` state what holds of the
library as a whole, for instance that settings which were saved are read back, that
no request on files leaves the directory of its instance or touches the identity
file, and that a backup finds the instance it was made of.
