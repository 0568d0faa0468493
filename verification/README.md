# agent_ng

An agent that mirrors resources of a cn2 config controller (virtual networks,
virtual machines and virtual machine interfaces) into a local cache, records
the references between them in a graph, and answers lookups and searches
over that graph.

- `src/` is the library, verified with Verus:
  - `api.rs`: the messages and resources.
  - `keyed.rs`: a finite map kept as a vector with distinct keys.
  - `cache_controller/`: cache keys, the reference graph with its
    breadth-first search, the least-recently-used caches (through the `lru`
    crate), and the cache's request handling.
  - `config_controller/`: the settings, which controllers start, the key
    action tracking of the resource controllers, and what each fetched
    resource becomes in the cache.
- `app/` is the program: settings files and command line, channels, the gRPC
  client and server, and the loops that run the library's steps.
- `tests/` exercises the library on concrete values.
