# gardswag

The core of a small functional language with records, tagged unions, threads and channels, with
contracts that Verus proves.

- `semantics` says what programs mean, `small_step` how an evaluation proceeds step by step, and
  `adequacy`, `exchange`, `meaning`, `channel_laws`, `scoping` and `equality` hold the laws about them.
- `machine` and `interp` run programs. A run exchanges values through channels by itself and stops
  where it needs its host: to write text and to start threads.
- `tyvars`, `subst`, `ty` and `ty_text` hold the types and type schemes of the language, `ty_laws` and
  `ty_text_laws` the laws about them.
- `text`, `names`, `syntax`, `chan`, `value` and `stack` hold what the others build on.

`app/` is the host: it writes what programs print and starts their threads.
