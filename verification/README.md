# Midnight Run Tools

Windows tools for the Dota 2 Dark Carnival / Midnight Run minigames, with a verified core.

- `boot_breaker` tracks the flying boot, moves the cart under it and throws it again when it has
  settled on the cart.
- `automation_attack` reads the word prompts and types them.

Both start the minigame themselves: they find its frame, click PLAY and find the play zone. Stop
them with Ctrl + Shift + Q.

## Layout

`src/` is the library. Everything in it is written in Verus, with contracts that say what each
function returns.

| Module | What it holds |
| --- | --- |
| `single` | single-precision arithmetic on integers, rounded to 24 bits, ties to even |
| `double` | double-precision seconds on integers, rounded to 53 bits, ties to even |
| `order`, `text`, `pixels`, `blobs` | stable sorting, texts, BGRA frames, connected regions |
| `platform::win32`, `platform::input` | records handed to the system; keys, clicks and waiting |
| `platform::overlay` | what the overlay shows, and how it reacts to messages |
| `tools::launcher` | finding the frame and the PLAY button, the launch and its log |
| `tools::boot_breaker` | finding and tracking boot and cart, steering, log rows, debug drawings |
| `tools::automation_attack` | finding prompts, letter templates, reading, what is typed |

`app/` is the program around it: screen capture, input, windows, files, threads, and what is
measured in floating point (speeds, rates, printed decimals). It runs the tool whose name the
executable has, `boot_breaker` or `automation_attack`.

`tests/` runs the library on concrete values.

## What is taken on trust

Two functions of the standard library that come without a specification: `String::push` and
`PathBuf::set_extension`. Their contracts stand in `src/text.rs` and `src/tools/launcher/log.rs`.

## Running

- `automation_attack` needs Tesseract OCR. Where there is none it says so for ten seconds and ends. The
  seed templates, `app/automation_attack_seed_templates.bin`, are embedded when it is built for
  Windows.
- `boot_breaker` takes the size of the boot from `boot_flying_template.png` where it is there.
- Logs: `boot_breaker_debug.tsv` and `automation_attack_debug.tsv`, each with a `.launch.tsv` file
  beside it for the launch.

Where a value is a share or a place that would be a fraction, the library holds it as a whole number
of units of 2^-52. Times of the Boot Breaker controller are double-precision seconds in units of 2^-82;
other times are nanoseconds.
