use vstd::prelude::*;

mod sealed;

verus! {

/// Whether `n` is one of the supported transform lengths.
pub open spec fn is_fft_length(n: nat) -> bool {
    n == 64 || n == 128 || n == 256 || n == 512 || n == 1024 || n == 2048 || n == 4096 || n == 8192
}

/// The number of bins that a real transform of length `n` produces: bin 0
/// through the Nyquist bin.
pub open spec fn real_bins(n: nat) -> nat {
    n / 2 + 1
}

/// Two to the power `e`.
pub open spec fn pow2(e: nat) -> nat
    decreases e,
{
    if e == 0 {
        1
    } else {
        2 * pow2((e - 1) as nat)
    }
}

/// The runtime tag of what a port carries.
#[derive(Clone, Copy, Debug, PartialEq, Eq, Structural)]
pub enum SignalType {
    /// One real sample.
    Sample,
    /// A frame of real samples, as long as the transform.
    AudioBlock,
    /// The bins of a real transform, bin 0 through the Nyquist bin.
    RealSpectrum,
    /// A full complex spectrum, as long as the transform.
    ComplexSpectrum,
}

impl SignalType {
    /// Two ports can be connected exactly when their tags are equal.
    pub fn connects_to(self, other: SignalType) -> (r: bool)
        ensures
            r == (self == other),
    {
        self == other
    }
}

/// The name of a port and the type of signal it carries.
#[derive(Debug)]
pub struct SignalSpec {
    pub name: String,
    pub signal_type: SignalType,
}

impl SignalSpec {
    pub fn new(name: &str, signal_type: SignalType) -> (s: Self)
        ensures
            s.name@ == name@,
            s.signal_type == signal_type,
    {
        SignalSpec { name: name.to_owned(), signal_type }
    }
}

impl Clone for SignalSpec {
    fn clone(&self) -> (r: Self)
        ensures
            r == *self,
    {
        SignalSpec { name: self.name.clone(), signal_type: self.signal_type }
    }
}

/// The decimal digit for `d`, which is below ten.
pub open spec fn digit(d: nat) -> char {
    if d == 0 {
        '0'
    } else if d == 1 {
        '1'
    } else if d == 2 {
        '2'
    } else if d == 3 {
        '3'
    } else if d == 4 {
        '4'
    } else if d == 5 {
        '5'
    } else if d == 6 {
        '6'
    } else if d == 7 {
        '7'
    } else if d == 8 {
        '8'
    } else {
        '9'
    }
}

/// `n` written in decimal, without leading zeros.
pub open spec fn decimal(n: nat) -> Seq<char>
    decreases n,
{
    if n < 10 {
        seq![digit(n)]
    } else {
        decimal(n / 10).push(digit(n % 10))
    }
}

/// `usize`'s `to_string`: the number written in decimal, as `Display` prints
/// an unsigned integer.
#[verifier::external_body]
pub(crate) fn index_text(n: usize) -> (text: String)
    ensures
        text@ == decimal(n as nat),
{
    n.to_string()
}

/// `ports` are the ports of the outer side of a graph with `count` audio
/// inputs or outputs: one port of single samples for each, named by its index.
pub open spec fn are_indexed_ports(ports: Seq<SignalSpec>, count: nat) -> bool {
    &&& ports.len() == count
    &&& forall|i: int|
        0 <= i < count ==> (#[trigger] ports[i]).name@ == decimal(i as nat) && ports[i].signal_type
            == SignalType::Sample
}

/// One port of single samples for each index below `count`, named by the
/// index.
pub fn indexed_ports(count: usize) -> (ports: Vec<SignalSpec>)
    ensures
        are_indexed_ports(ports@, count as nat),
{
    let mut ports: Vec<SignalSpec> = Vec::with_capacity(count);
    let mut i: usize = 0;
    while i < count
        invariant
            i <= count,
            are_indexed_ports(ports@, i as nat),
        decreases count - i,
    {
        ports.push(SignalSpec { name: index_text(i), signal_type: SignalType::Sample });
        i += 1;
    }
    ports
}

/// A member of the frame-size family.
pub trait Fft: sealed::Sealed {
    /// The transform length of this member.
    spec fn fft_length() -> nat;

    /// The transform length.
    fn n_fft() -> (n: usize)
        ensures
            n == Self::fft_length(),
            is_fft_length(n as nat),
    ;

    /// The number of real-transform bins, `n_fft() / 2 + 1`.
    fn n_real_bins() -> (r: usize)
        ensures
            r == real_bins(Self::fft_length()),
    ;
}

/// Frames of 64 samples.
pub struct Fft64;

impl sealed::Sealed for Fft64 {

}

impl Fft for Fft64 {
    open spec fn fft_length() -> nat {
        64
    }

    fn n_fft() -> (n: usize) {
        64
    }

    fn n_real_bins() -> (r: usize) {
        33
    }
}

/// Frames of 128 samples.
pub struct Fft128;

impl sealed::Sealed for Fft128 {

}

impl Fft for Fft128 {
    open spec fn fft_length() -> nat {
        128
    }

    fn n_fft() -> (n: usize) {
        128
    }

    fn n_real_bins() -> (r: usize) {
        65
    }
}

/// Frames of 256 samples.
pub struct Fft256;

impl sealed::Sealed for Fft256 {

}

impl Fft for Fft256 {
    open spec fn fft_length() -> nat {
        256
    }

    fn n_fft() -> (n: usize) {
        256
    }

    fn n_real_bins() -> (r: usize) {
        129
    }
}

/// Frames of 512 samples.
pub struct Fft512;

impl sealed::Sealed for Fft512 {

}

impl Fft for Fft512 {
    open spec fn fft_length() -> nat {
        512
    }

    fn n_fft() -> (n: usize) {
        512
    }

    fn n_real_bins() -> (r: usize) {
        257
    }
}

/// Frames of 1024 samples.
pub struct Fft1024;

impl sealed::Sealed for Fft1024 {

}

impl Fft for Fft1024 {
    open spec fn fft_length() -> nat {
        1024
    }

    fn n_fft() -> (n: usize) {
        1024
    }

    fn n_real_bins() -> (r: usize) {
        513
    }
}

/// Frames of 2048 samples.
pub struct Fft2048;

impl sealed::Sealed for Fft2048 {

}

impl Fft for Fft2048 {
    open spec fn fft_length() -> nat {
        2048
    }

    fn n_fft() -> (n: usize) {
        2048
    }

    fn n_real_bins() -> (r: usize) {
        1025
    }
}

/// Frames of 4096 samples.
pub struct Fft4096;

impl sealed::Sealed for Fft4096 {

}

impl Fft for Fft4096 {
    open spec fn fft_length() -> nat {
        4096
    }

    fn n_fft() -> (n: usize) {
        4096
    }

    fn n_real_bins() -> (r: usize) {
        2049
    }
}

/// Frames of 8192 samples.
pub struct Fft8192;

impl sealed::Sealed for Fft8192 {

}

impl Fft for Fft8192 {
    open spec fn fft_length() -> nat {
        8192
    }

    fn n_fft() -> (n: usize) {
        8192
    }

    fn n_real_bins() -> (r: usize) {
        4097
    }
}

/// Every supported transform length is a power of two between 2^6 and 2^13,
/// so it is even and at least 64.
pub proof fn lemma_fft_length_power_of_two(n: nat)
    requires
        is_fft_length(n),
    ensures
        exists|e: nat| 6 <= e <= 13 && n == pow2(e),
        n % 2 == 0,
        64 <= n <= 8192,
{
    reveal_with_fuel(pow2, 14);
    assert(pow2(6) == 64);
    assert(pow2(7) == 128);
    assert(pow2(8) == 256);
    assert(pow2(9) == 512);
    assert(pow2(10) == 1024);
    assert(pow2(11) == 2048);
    assert(pow2(12) == 4096);
    assert(pow2(13) == 8192);
}

} // verus!
