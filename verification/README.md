# geosphere_engine

The core of a voxel world engine, written in Verus and proved against its contracts.

- `geosphere`: the world. Slots are stored in chunks of 16 x 16 x 16, addressed by Morton
  codes (`morton`), kept in a map of chunks by key (`chunk_map`). `active_geosphere` is the
  server's world: reading a slot of a chunk that is not in memory loads it, and loading a chunk
  bakes which faces of the slots around it are hidden; the loader and the saver, which users
  supply, keep a record (in specification only) of what they were asked and handed.
  `passive_geosphere` is a client's copy.
  `cube` registers the kinds of cubes and lays their face images out in a texture atlas.
- `net`: the settings of network channels, and large messages cut into parcels of 32 bytes
  and put back together.
- `arch`: the messages between server and clients, and the decisions of their poll loops:
  the server's state (players, ready clients, queued chunk messages) and how each event
  changes it, which chunks a player subscribes to, what a new client is sent first, how a
  client applies what it receives.
- `spectator`, `viewport`: which faces of a cube are drawn, lumps of slots, the spectator's
  cache of lumps (which lumps in view start loading, and which cached lumps are dropped when
  far away), and the grid layout and drawing of the texture atlas.

`app/` holds the programs around the library: networking over renet, the server's and the
client's poll loops, which do what the library decides, images, and the floating-point quads of
drawn faces.
