# sysmon

Shows the load and the temperatures of a Linux system as colors on the addressable LEDs of a
motherboard, through an [OpenRGB](https://openrgb.org/) server.

## Layout

- `src/` is the library. It is written in Verus, and every function in it is proved to meet its
  contract: reading the settings, the OpenRGB protocol, which controller and zones to use, which
  LEDs show what, what `/proc` and `/sys` and `nvidia-smi` say, when to ask again, and the report.
- `tests/` runs the library on concrete values.
- `app/` is the program: it opens files and sockets, starts `nvidia-smi`, and computes with
  floating-point numbers (averages, percentages, colors between two stops of the gradient).

## Modules

| Module | What it is about |
|--------|------------------|
| `text`, `notation` | texts as sequences of characters, and numbers written in them |
| `bytes`, `cursor` | little-endian numbers, and reading the fields of a message in order |
| `openrgb`, `message` | controllers, their modes and zones, and the message that describes one |
| `packet`, `session` | packets of the protocol, and the handshake with a server |
| `search`, `selection` | which controller and which of its modes to use |
| `config` | settings, from the environment and a file; the environment wins |
| `layout`, `frame` | which LEDs show what, and the colors of all LEDs at one moment |
| `cpu`, `hwmon`, `temp` | CPU time and temperature sensors |
| `pci`, `nvidia`, `gpu` | finding GPUs, and when to ask them for readings |
| `metrics` | the window of the rolling average, the report, the color gradient |

## What is trusted

Two functions of the standard library are used on the word of their documentation:
`String::push` and `String::from_utf8`.
