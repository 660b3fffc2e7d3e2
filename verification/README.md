# dsntk_feel_number

FEEL numbers, verified with Verus: decimal128 values (34 significant digits, half-even
rounding, exponents up to 6144) computed on top of the 256-bit decimal of `fastnum`, and
the preparation of calls to external Java functions.

## Layout

`src/` is the verified library.

- `digits`: decimal digit text, and the digit-string steps that rounding needs
- `decimal`: the working decimal in plain parts, and what it stands for
- `backend`: the calls into `fastnum`, with what is trusted of each
- `rounding`: half-even rounding on digit text, and bringing values to the format
- `scales`: magnitudes written at different scales, and sums too long for 256 bits
- `arithmetic`: comparison, integers, parity, and the operations on raw decimals
- `remainders`: the floored remainder
- `powers`: where a power lies, so that one out of the format's range is not computed
- `number`: the FEEL number, its rounding functions, roots, logarithms and powers
- `operators`, `compare`, `convert`: its operators, comparisons and conversions
- `grammar`, `literal`, `display`: what its texts look like, reading and writing it
- `java`: calls of external Java functions and the meaning of their answers
- `laws`, `rounding_laws`: what holds across functions
- `errors`: the reasons for which an operation is refused

`app/` is ordinary Rust around it: `std::fmt` and the HTTP bridge. `tests/` runs the
library.

## Values

A `FeelNumber` is viewed as a `DecimalView`: not a number, an infinity, or a finite value
`coefficient * 10^-scale` with a sign. Contracts state results exactly on such views.
Sums, differences, products and quotients are the exact results rounded once. For roots,
logarithms, exponentials and powers that are not exact, a result is named and what
follows it is stated over that name.

A power or an exponential that is far out of the format's range is infinite or zero
without being computed; that it lies there is proved. Operands that are zero, one,
infinite or not a number settle the result too.
