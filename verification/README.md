# jpeg-rusturbo

A JPEG decoder and the kernels of a JPEG codec, written in Rust and verified
with [Verus](https://github.com/verus-lang/verus). Every function of the
library states what it computes, and Verus proves that it does so without
panics, overflow or reads outside its data.

```rust
use jpeg_rusturbo::{decode, PixelFormat};

let rgb = decode::decode(jpeg_bytes, PixelFormat::Rgb)?;

let decoder = decode::Decoder::new(jpeg_bytes)?;
let info = decoder.info();
let exif = decoder.exif();
let icc = decoder.icc_profile();
let rgba = decoder.decode(PixelFormat::Rgba)?;
```

## What is decoded

Baseline (SOF0) and progressive (SOF2) Huffman streams with 8-bit samples, one
to four components and sampling factors 1, 2 and 4. Restart intervals, several
scans per image, and tables between scans are handled. Other codings are
refused with `DecodeError::Unsupported`.

## How the library is laid out

| module             | contents                                                         |
|--------------------|------------------------------------------------------------------|
| `decode`           | `Decoder`, metadata, and the model of a whole decode (`parsed`, `Parsed`) |
| `decode::markers`  | segments and headers                                             |
| `decode::huffman`  | bit reader, canonical codes, combined lookup tables              |
| `decode::baseline` | baseline scans, restart handling, plane geometry                 |
| `decode::progressive` | progressive scans and the transform of their coefficients     |
| `decode::compose`  | chroma upsampling and packing of pixels                          |
| `color`            | pixel layouts and extraction of blocks from images               |
| `dct`, `quant`, `tables`, `fixed` | transform, reciprocal quantization, zig-zag order, fixed-point arithmetic |
| `arch::scalar`     | the reference kernels                                            |
| `arch::neon`, `arch::x86_64` | the same kernels in the 16-bit lane arithmetic of NEON and AVX2 |
| `arch::lanes`      | that arithmetic, and when it agrees with the reference           |
| `bench`            | the image that timings are taken on                              |

## Reading the contracts

A stream is modelled by pure functions over its bytes: `read_headers` for the
segments, `baseline_scans` and `progressive_samples` for the entropy-coded
data, `composed` for the pixels. The executable functions promise to return
exactly what these say, errors included.

Proof functions whose names begin with `law_` state what holds across
functions: that the lookup tables agree with the plain decoder, that
quantization is a rounded division, that the lane kernels agree with the
reference where nothing leaves its lane, that a decoded image has
`width * height * bytes-per-pixel` bytes, and so on.

`app/` holds a small program that times the decoder on files; `tests/` runs the
library on concrete streams.
