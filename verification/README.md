# moontfhe_native

The native providers of MoonTFHE: AES-256-GCM with a detached tag, and the
integer core of the Fourier bootstrapping backend (Torus32 arithmetic,
negacyclic rotation, signed gadget decomposition, key switching, sample
extraction, and the control flow of a programmable-bootstrapping context).

- `src/` is the verified library. Its contracts are stated over sequences and
  integers; the laws of the arithmetic (gadget recomposition, exactness of the
  16-bit limb split, composition of negacyclic rotations) are public proof
  functions.
- `app/` holds what cannot be verified: the floating-point FFT plans and the
  Fourier bootstrapping key, the C ABI with its raw pointers, the
  allocation-counting global allocator, and the tfhe-rs benchmark. A
  bootstrapping evaluation is driven from there: the library's context says
  which external product it needs (`PbsAction::ExternalProduct`), the Fourier
  key computes it, and `NativePbsContext::resume` continues.
- `tests/` exercises the library on concrete values.
