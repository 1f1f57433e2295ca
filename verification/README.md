# tt-splat-viewer

A viewer for gaussian-splatting models on Rust, wgpu and Verus. The left pane composites with
poly-splats and Weighted Sum Rendering, which needs no depth sort; the right pane shows standard
splatting, drawn far to near.

`src/` is the library. It is verified with Verus, but for four small functions that call code from
outside and whose contracts are taken on trust:

- `text::from_utf8_lossy` calls `String::from_utf8_lossy`,
- `text::string_of` calls `String::from_iter`,
- `ply::error::debug_list` formats a list of strings with `{:?}`,
- `upload::bytes_of_words` calls `bytemuck::cast_slice`.

The library holds every real number as the bit pattern of an IEEE 754 value, and does no
floating-point arithmetic.

| module       | what it does                                                              |
|--------------|---------------------------------------------------------------------------|
| `ply`        | reads standard `.ply` files, binary and text (`ply::laws`, `ply::written`: what always holds) |
| `scene`      | gaussians, background, camera; culling, drawing order, packing for the GPU |
| `scene_file` | scenes and views that are described in full                               |
| `order`      | the drawing order far to near                                             |
| `bits`       | order and culling on bit patterns                                         |
| `viewer`     | panes, backgrounds, and what each event does to the viewer                |
| `cli`        | command lines                                                             |
| `upload`     | records as the GPU reads them                                             |
| `offscreen`  | the buffer through which an image comes back                              |
| `text`       | decoding, lines, words, decimal numbers                                   |

`app/` is the program around it: the window, the GPU, files, and all floating-point geometry.

- `tt-splat-viewer [model.ply]` opens the window, with a built-in synthetic scene if no file is named.
  It needs `winit` 0.29, which is to be added to Cargo.toml for it. Left-drag orbits, right-drag pans, scrolling zooms,
  `b` cycles the background, and a `.ply` file dropped onto a pane is shown there.
- `tt-splat-viewer offscreen [--gs] <scene.json|model.ply|--demo|--dual> <out.png> [view.json | --orbit yaw pitch]`
  draws into an image file.
