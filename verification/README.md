# chunkah

Component repositories for splitting a root filesystem into layers. A repository says which
component each path belongs to, what the component is called, to which time its files are
clamped, and how likely it is to stay as it is.

- `rpm`: components by RPM source package. The paths in the RPM database are first resolved
  along the symbolic links of the root filesystem (`normalize`, `canonicalize`,
  `package_paths`); `srpm` takes source package names apart, `stability` rates packages by
  their changelogs.
- `xattr`: components named by the `user.component` extended attribute, which directories hand
  down to what is below them.
- `bigfiles`: one component for each big file, hard links to it taken together.

`path` says what the components of a path are, `path_map` is an ordered map from paths, and
`index` holds the names of components in the order in which they were first seen.

The library under `src/` is written in [Verus](https://github.com/verus-lang/verus): what each
function does is stated in its contract and proved. What is taken on trust of the crates
`camino`, `indexmap` and `libc`, and of `String::from_utf8`, is said at the functions marked
`external_body`, at `assume_specification` and at the names declared with `uninterp`.

The library reads nothing from disk. `app/` probes for the RPM database, runs the RPM query,
reads the targets of links as they are asked for, and turns a stability into the chance that it
stands for.
