# node_graph

The editing and decision logic of a node graph editor, written in Verus and
proved against its contracts.

`src/` is the verified library:

- `graph_core`: identifiers, port directions and the rule that decides which
  ports may be connected.
- `tombstones`: the strict table of ports and connections, and the dangling
  connections kept while a port is away; drafts, the port context menu,
  bringing a node's ports in line with its type (`tombstones::reconcile`),
  refreshing every node's ports at once (`tombstones::refresh`),
  and the laws of removing and restoring a port (`tombstones::laws`).
- `catalog`: node types, the searchable catalog, draft-compatible pins, the
  menu's rows and scroll target.
- `keys`: key maps of the canvas, the catalog menu and the group label editor.
- `text_input`: the UTF-16 text field shared by world controls and menus.
- `gesture`: what releasing the primary button commits (resize, drag,
  selection box, connection draft) and what deleting the selection asks.
- `id_order`: the order of the host's ids in every list sent to it, by the
  texts the host gives for them.
- `groups`, `dismissal`: node groups and overlay dismissal.
- `layout`, `style`, `editor`, `overlay`, `windows`, `world`, `actions`: the
  remaining integer and enum decisions of the editor.
- `seq_facts`, `name_set`: general facts and helpers the modules share.

`tests/` runs the library on concrete values. `app/` holds what needs
floating point, consumer-defined identifiers or serde: geometry, the subway
router, the world display list and the graph model.
