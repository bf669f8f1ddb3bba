# lieui (verified core)

The decision-making core of the lieui UI toolkit, written in Verus with
contracts proved by the verifier.

`src/` (verified):

- `effects`, `event_types`, `event_context`: event side effects, kinds,
  buttons, keys, and the handler context.
- `dispatch`: three-phase delivery order, per-node listener passes, and the
  pointer/focus state machine (`EventManager`) that plans hover, press,
  release, drag and focus changes.
- `layers`, `popup_tree`, `order`: the layer stack (z bands, handles, popup
  ownership, hit and render order, outside-click dismissal).
- `tree`, `reconcile`: the element arena and the reconciliation of view trees
  against it (patch planning and application).
- `reconcile_law`: what reconciling a view against an existing parent
  leaves behind: one child per view child, in order, reusing the matched
  elements and building new subtrees for the others.
- `signals`: per-window rebuild/redraw/close requests and queued layer
  commands with their layer specs.
- `layer_commands`: applying the queued layer commands to the layer stack
  and the element tree at the start of a frame.
- `paint_state`: which interaction state a node is drawn with (its own, or
  its nearest interactive ancestor's) and the state-dependent colours.
- `animation`: periodic timers (due timers and next wake-up).
- `inspector`: widget descriptions, path-to-id mapping and DevTools nodes.
- `external`, `frame`: outside events and wake-up, window frame decisions.
- `color`, `text`, `theme`, `layout_types`: values and small parsers.

`app/` holds what cannot be verified: thread-local state, callbacks, the
clipboard, the inspector's WebSocket server, key mapping from the windowing
system, floating-point geometry (popup placement, drag motion, repeated
click detection) and theme values, the per-window frame driver that
hands the pending view and layer commands to the library, and the pointer
driver that performs the library's press, move and release plans.

Not part of this crate: the windowing application loop, the flex layout
engine, the renderer and compositor, and the widget set. They compute with
floating-point geometry and depend on rendering and text-shaping crates;
the decisions they make (which layers to build, which events to deliver,
when to redraw or close) are the library functions above.

`tests/` exercises the library on concrete values.
