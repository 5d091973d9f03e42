# village_sim

An authoritative, deterministic village simulation and the presentation rules of
its client, with contracts that Verus proves.

## Layout

- `src/` is the verified library.
  - `village` is the village as a mathematical state. Each rule that changes it
    is a function from one state to the next.
  - `simulation` is the runner. Every method is proved to compute exactly those
    functions. `arrival` opens a scenario, `route` plans walks, `arbitration`
    ranks competing requests, `ground` reads the map and `clock` keeps the time.
  - `upkeep` holds the invariants of the village and shows that every rule keeps
    them.
  - `laws`, `order_laws`, `fifo_laws`, `use_laws`, `need_laws`, `movement_laws`,
    `duration_laws`, `replay_laws`, `snapshot_laws` and `arrival_laws` state what
    the village promises as a whole.
  - `driver`, `orders`, `feed`, `card`, `camera`, `presentation` and `text` are
    what a client decides and says: which command a button submits, what a
    receipt reads, which storey is shown.
  - `ord_map` and `listing` are the containers and sequence lemmas underneath.
- `tests/` runs the library on concrete scenarios.
- `app/` is the Bevy client: it reads the authored RON content, draws sprites
  and hands input to the library.

## Notes

Claims on tiles and slots are ranked by effective priority, then by request age,
then by resident. The effective priority is an order's own priority on top of
its band's base, and the bases lie a thousand apart. So a seed and a list of
commands decide a whole run, and the seed shows in the completion marks alone.

A need that authors no urgent threshold never becomes urgent, however large it
grows.

Nobody steps onto a tile that somebody holds. Two residents come to share a tile
in two ways only. One comes out of a portal where the other stands. Or one steps
onto a tile that nobody holds, though the other stands on it: such a tile is left
behind when two have shared it and the one that held it walks on.
`movement_laws` states this for every pair of residents and every tick.

The manifest names the Bevy features that the client's code mentions. A playable
build adds Bevy's window, renderer and audio back ends (`bevy_winit`,
`bevy_sprite_render`, `bevy_ui_render`, `bevy_audio`, `vorbis`) and the authored
files under `assets/`.
