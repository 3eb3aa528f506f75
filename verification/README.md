# CAGEq

An equaliser for one audio endpoint, and everything around it that decides something: how a
correction is written and read back, how it is pushed to the running engine and faded in, how the
effect is attached to a machine, and what the application makes of its settings.

- `src/` is the library, verified with Verus. Its contracts say exactly what each function returns,
  and the functions named `law_...` state what holds across several of them.
- `app/` is the setup helper, the desktop shell and the parts that only an operating system or floating-point arithmetic
  can do: the registry, files, the shared section, and the samples themselves.
- `tests/` runs the library, the audio engine with its arithmetic included.

| Modules | |
| --- | --- |
| `natural`, `double`, `decimal`, `text`, `utf16` | numbers and text, exactly |
| `fingerprint` | content hashes |
| `config_writer`, `config_laws` | the managed block in a shared configuration file |
| `endpoint`, `dsp`, `apo_config` | endpoint ids, bands, and the engine's own configuration files |
| `control` | the block that the application and the engine share |
| `cascade`, `cascade_laws`, `instance` | the engine: ramps, fades and crossfades, frame by frame |
| `backend`, `slots`, `apo_backend`, `applied_files`, `directory`, `backend_laws`, `hash_laws` | applying a correction, and what is applied |
| `setup`, `effect_chain`, `chain_laws`, `ownership`, `setup_cli` | attaching the effect to a machine |
| `streams`, `host` | the desktop application's own decisions |

Double-precision numbers stand in the library as their bit patterns (`Double`), with the rounding of
each operation stated in integers.
