# gloom-rs

A small OpenGL viewer: a triangle scene read from comma-separated vertex and
colour files, and a helicopter scene drawn through a scene graph, both with a
keyboard-driven camera.

- `src/` is the verified library (Verus):
  - `buffers`: byte sizes, strides and offsets of vertex data, and the index
    buffer of a vertex list;
  - `values`: the comma-separated value format, with its specification
    (split at commas, trim Unicode white space, drop empty fields);
  - `input`: the held keys, the window size the render loop adapts to, and
    when the event loop exits;
  - `camera`: the key bindings and the scene's two switches;
  - `scene`: the scene graph, the order in which drawing visits it, and the
    helicopter scene's layout.
- `app/` is the program around it: the window and event loop (glutin), the
  OpenGL calls (gl), and the matrix arithmetic (nalgebra-glm).
- `tests/` runs the library on concrete values.
