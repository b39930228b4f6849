# project2: balanced binary search trees

Two self-balancing binary search trees, an AVL tree and a red-black tree,
with an interactive menu to insert, delete, count leaves, measure the height,
list the values in order and draw the tree in two styles.

The library is written in Verus and proved correct:

- `src/order.rs`: what a key type must satisfy (a total order whose `==` is
  equality of values) and the comparisons used by the trees.
- `src/common.rs`: the node trait shared by both trees, the mathematical
  model of a tree (its set of values, its in-order sequence, the search-tree
  order, its height, its leaves), and the shared operations: leaf count,
  height, in-order traversal, the search for a key's location, and the
  rotation of a grandparent with its four cases `LL`, `RR`, `LR`, `RL`.
  Nodes own their children; a node is named by its path of `Left`/`Right`
  steps from the root, so its parent and grandparent are prefixes of that
  path.
- `src/avl.rs`: the AVL tree. Every node records its height; insertion and
  deletion rebalance each node on the way back up with single or double
  rotations. Deletion of a node with two children takes the in-order
  predecessor's value.
- `src/red_black.rs`: the red-black tree. Insertion adds a red leaf and
  repairs red-red conflicts by recolouring (red uncle) or rotating (black
  uncle); deletion removes the node or its in-order predecessor and repairs a
  missing black node with the four classical sibling cases.
- `src/layout.rs`: the layout of the two drawings, line by line.
- `src/input.rs`: the reading of a line of values typed at the menu: words
  split at Unicode white space, each an optional sign and decimal digits
  of an `i32`.

Each public operation states the exact tree it leaves, through spec
functions that describe the algorithm step by step, besides what it does to
the set of values and that it keeps the invariants of its tree; the proofs
also show that both trees stay logarithmically high in the number of values
they hold, and that a second
insertion of a value changes nothing and that deleting a value just inserted
gives back the values that came before.

`app/main.rs` holds the menu, the console input and output, and the printing.
