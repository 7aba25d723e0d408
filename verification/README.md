# reims_vgpu_core

The semantic core of a virtual GPU: what guest work touches, what orders it,
where its bytes are, and when the guest may see that it finished. Nothing here
draws, maps memory or talks to a host. Every function is verified with Verus
against a mathematical model, and the laws that relate several functions stand
in `src/` as public proof functions.

## Layout

| Modules | What they hold |
| --- | --- |
| `identity`, `table`, `ordinal_set`, `range_set` | ordinals, stamps and the small collections |
| `access`, `depend` | what work touches, and the hazards that follow |
| `content`, `heap`, `namespace`, `lifecycle`, `fifo` | where bytes are, and the lifetime of the names for them |
| `pipeline`, `publish`, `ready`, `prereq` | what work waits for, and each channel's publication order |
| `stream`, `operation`, `exec`, `encoder` and the record modules | one packet's resolved work |
| `decode`, `resolve` | records with guest refs, and their resolution |
| `present`, `query`, `control`, `retire`, `transaction`, `session` | ingress: packets become transactions, or are refused |
| `interpret`, `eligible`, `schedule`, `diverge` | the serial meaning of a batch, the schedules it permits, and what it takes for two runs to agree |
| `words`, `drained`, `follow`, `heard`, `completion` | the proof that an eligible batch completes under any choice |
| `stamped`, `answered`, `settled`, `shown`, `confluence`, `stale` | the proof that its schedules mean what the serial one meant |

## The main laws

`completion::an_eligible_batch_completes`: an eligible batch, driven by any
choice among what is ready, completes every transaction once and stalls nothing.
Beyond eligibility it asks that a stamp which answers a wait leaves its slot
where the wait is answered (`heard::stamps_answer`). Only a slot whose values
come round past a wait fails that, and such a batch may stall.

`confluence::every_permitted_schedule_means_what_the_serial_one_meant`: where
the waits of an eligible batch also decide the order of what it shows
(`confluence::has_one_meaning`), every such run refuses nothing and agrees with
the serial one. `follow::always_after` says what the waits decide: a hazard, an
event wait, or a stamp wait and the channel that tells the stamp, one after
another. Two versions of one backing that nothing orders, for example, complete
under any choice and may leave either history, and so with two channels that
stamp one word.

`stale::a_closed_generation_is_refused_alike`: a batch of another generation,
under the same condition on its stamps, is refused whole in every schedule, as
in the serial run.

Tests under `tests/` run the compiled library on concrete values.
