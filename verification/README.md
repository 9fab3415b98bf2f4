# lava_dependency

Dependencies between architectures, verified with Verus.

```text
LavaArchitectureDependency
  from            the dependent
  to              the upstream
  kind            BlocksOn (hard) | Influences (soft)
  require_phase   the phase that the upstream must be in

DependencyResolver::resolve(dependent, deps, registry) -> ResolutionVerdict
  ready_for_reconcile()   true unless a BlocksOn upstream is unsatisfied
  blocks                  every unsatisfied dependency, hard and soft
  downstream_of_failed    the Failed upstreams that the dependent depends on,
                          directly or through others
```

| Dependency kind | Severity of a block |
|---|---|
| `BlocksOn` | `Functional` |
| `Influences` | `Cosmetic` |

`validate_acyclic` accepts a set of dependencies exactly when there is an order
in which every upstream comes before its dependents. Otherwise it returns a
cycle, as a path of dotted addresses.

## Layout

| Module | Holds |
|---|---|
| `address` | addresses and their dotted form |
| `dependency` | the edges |
| `entries` | insertion-ordered text maps |
| `registry` | where phases are looked up |
| `reach` | what a dependent depends on, directly and through others |
| `resolver` | the verdict, and the laws that hold of it |
| `anomaly` | what is reported of a block |
| `search`, `acyclic` | the search for a cycle |
| `text` | arguments that are turned into text |

`app/` puts `serde`, error messages and the types of the other lava crates
around the library.
