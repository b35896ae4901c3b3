# Volume Sync

Volume control, playing in step and calendar screens for the speakers and TVs of one
home, without any service outside it: Google Cast devices, Roku TVs, LG TVs, Yamaha
receivers and Optoma projectors.

`src/` is the library. It holds the rules of the program as functions on plain values,
each with a contract that Verus proves:

- groups of devices and their volumes: `levels`, `home`, `control`, `registry`,
  `commands`, `config`, `types`
- the devices: `proto` and `cast`, `roku`, `roku_remote` and `roku_player`, `lg`,
  `yamaha`, `optoma`
- playing in step and spoken messages: `sync_play`, `broadcast`, `wave`
- files that TVs stream from this machine: `media_server`
- calendars: `cal_feeds` with `ics`, `ics_time`, `dates`, `zones`, `windows_zones`,
  `rrule`, `recurrence`, `series`, `events` and `feed_events`; what is shown where:
  `calendar`, `cal_schedule`, `cal_render`, `saver_import`; pictures as videos:
  `cal_video`, `h264`, `bits`, `mp4`
- text, bytes, JSON and XML: `text`, `bytes`, `json`, `xml`

Levels are whole numbers, a million of which is full volume. Times are whole numbers of
milliseconds or seconds; a moment of a feed is counted in half seconds, the odd ones being
leap seconds. Days are numbers of the calendar. What other crates compute
stands behind small functions whose contracts are stated, not proved: dates and zones
(`chrono`, `chrono-tz`), JSON (`serde_json`), digests (`md5`, `sha2`), pictures
(`image`), archives (`zip`) and random numbers (`uuid`).

`app/` is the program around the library: sockets, files, clocks, the window and the
tray. `tests/` runs the library from outside.
