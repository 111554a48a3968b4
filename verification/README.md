# lcevc_enc

An LCEVC (Low Complexity Enhancement Video Coding) enhancement-layer encoder with a bit-exact
mirror decoder, verified with Verus. It works on top of a lossless base or of a VVC base that an
external codec encodes and decodes.

## Layout

- `src/` is the verified library.
  - Bits and entropy coding: `bitstream`, `entropy` (Huffman tables, run lengths, and what a
    reader makes of them; `entropy::depth` bounds the lengths of codes).
  - Configuration and framing: `config`, `resolution`, `payload`, `nal`, `stream`,
    `header_laws`.
  - Samples: `frame`, `simd`, `upscale`, `transform`, `quant`, `dequant`, `blocks`.
  - The encoder: `tu`, `geometry`, `coding`, `runs`, `plane`, `picture`, `rate`, `encoder`.
  - The decoder: `decoder`, `reconstruct`.
  - Files and the session around it: `base`, `yuv`, `y4m`, `annexb`, `mp4`, `cli`, `session`,
    `gop`.
  - `selfcheck` proves that the decoder shows what the encoder shows, `capacity` that ordinary
    pictures meet what this asks for.
- `tests/` runs the library.
- `app/` is the program: files, pipes, external codecs, threads, and what is computed with
  floating-point numbers.

## Usage

```sh
# Raw base (lossless base for testing the enhancement layer):
lcevc_enc -i input.yuv -s 1280x720 -f 30 --frames 10 --base-mode raw -o out.lcevc

# VVC base:
lcevc_enc -i input.yuv -s 1280x720 -f 30 --frames 10 \
          --base-mode vvc --base-out base.266 -o out.lcevc
```

`lcevc_enc --help` lists the options; `lcevc_enc selfcheck input.yuv 512 128 2 2 0` encodes two
frames, decodes them with the mirror decoder and compares.
