//! Errors that can occur during CAD operations.

use vstd::prelude::*;
use vstd::string::to_string_from_display_ensures;

verus! {

#[verifier::external_type_specification]
#[verifier::external_body]
pub struct ExIoError(std::io::Error);

/// Errors that can occur during CAD operations.
#[derive(Debug)]
pub enum Error {
    /// Caller-side misuse: an argument that cannot be interpreted, such as an invalid color string.
    Validation(String),
    /// Reading or writing STEP, BRep, glTF and the like failed.
    Io(std::io::Error),
    /// Triangulation/meshing failed.
    Tesselation,
    /// Boolean operation (fuse/cut/common) failed.
    Boolean,
    /// Got not exactly one solid although one was expected, typically as the result of a boolean operation.
    OneFailed(usize),
    /// Edge construction failed on degenerate input (collinear arc points, zero-length line, negative radius).
    Edge(String),
    /// Shape cleaning (UnifySameDomain) failed.
    Clean,
    /// Extrusion failed: empty profile, zero-length direction, or profile not closed.
    Extrude,
    /// Pipe sweep failed: profile not closed, or edges not connectable into a wire.
    Sweep(String),
    /// Shell failed: thickness incompatible with the geometry, or self-intersecting offset.
    Shell(String),
    /// Fillet failed: radius too large, tangent discontinuity, or foreign edge.
    Fillet(String),
    /// Chamfer failed: distance too large, tangent discontinuity, or foreign edge.
    Chamfer(String),
    /// Loft failed: too few sections, or an ill-formed section wire.
    Loft(String),
    /// Sewing failed: the faces do not form exactly one closed shell within the tolerance.
    Sew(String),
    /// Surface offset failed: the offset surfaces self-intersect.
    Offset(String),
    /// B-spline solid failed: grid too small, or interpolation/sewing rejected the input.
    Bspline(String),
}

impl Error {
    /// The message this error reads as.
    pub fn message(&self) -> (r: String)
        ensures
            match self {
                Error::Io(io) => exists|shown: String|
                    to_string_from_display_ensures::<std::io::Error>(io, shown) && r@
                        == "I/O error: "@ + shown@,
                _ => r@ == message_spec(self),
            },
    {
        match self {
            Error::Validation(msg) => join("Validation failed: ", msg.as_str()),
            Error::Io(e) => {
                let shown = e.to_string();
                join("I/O error: ", shown.as_str())
            },
            Error::Tesselation => String::from_str("Tesselation failed"),
            Error::Boolean => String::from_str("Boolean operation failed"),
            Error::OneFailed(n) => {
                let shown = decimal_string(*n);
                join("Expected exactly one resulting Solid, got ", shown.as_str())
            },
            Error::Edge(msg) => join("Edge failed: ", msg.as_str()),
            Error::Clean => String::from_str("Clean failed"),
            Error::Extrude => String::from_str("Extrude failed"),
            Error::Sweep(msg) => join("Sweep failed: ", msg.as_str()),
            Error::Shell(msg) => join("Shell failed: ", msg.as_str()),
            Error::Fillet(msg) => join("Fillet failed: ", msg.as_str()),
            Error::Chamfer(msg) => join("Chamfer failed: ", msg.as_str()),
            Error::Loft(msg) => join("Loft failed: ", msg.as_str()),
            Error::Sew(msg) => join("Sew failed: ", msg.as_str()),
            Error::Offset(msg) => join("Offset failed: ", msg.as_str()),
            Error::Bspline(msg) => join("Bspline failed: ", msg.as_str()),
        }
    }
}

/// What `Error::message` reads; an I/O error reads as `I/O error: ` and its own
/// `Display`, which only the `Io` arm of `message`'s contract states.
pub open spec fn message_spec(e: &Error) -> Seq<char> {
    match e {
        Error::Validation(msg) => "Validation failed: "@ + msg@,
        Error::Io(_) => "I/O error: "@,
        Error::Tesselation => "Tesselation failed"@,
        Error::Boolean => "Boolean operation failed"@,
        Error::OneFailed(n) => "Expected exactly one resulting Solid, got "@ + decimal(*n as nat),
        Error::Edge(msg) => "Edge failed: "@ + msg@,
        Error::Clean => "Clean failed"@,
        Error::Extrude => "Extrude failed"@,
        Error::Sweep(msg) => "Sweep failed: "@ + msg@,
        Error::Shell(msg) => "Shell failed: "@ + msg@,
        Error::Fillet(msg) => "Fillet failed: "@ + msg@,
        Error::Chamfer(msg) => "Chamfer failed: "@ + msg@,
        Error::Loft(msg) => "Loft failed: "@ + msg@,
        Error::Sew(msg) => "Sew failed: "@ + msg@,
        Error::Offset(msg) => "Offset failed: "@ + msg@,
        Error::Bspline(msg) => "Bspline failed: "@ + msg@,
    }
}

/// The ASCII digit for `d < 10`.
pub open spec fn digit_char(d: nat) -> char {
    (48 + d) as char
}

/// The decimal representation of `n`, without leading zeros.
pub open spec fn decimal(n: nat) -> Seq<char>
    decreases n,
{
    if n < 10 {
        seq![digit_char(n)]
    } else {
        decimal(n / 10).push(digit_char(n % 10))
    }
}

/// `prefix` followed by `rest`.
fn join(prefix: &str, rest: &str) -> (r: String)
    ensures
        r@ == prefix@ + rest@,
{
    let mut r = String::from_str(prefix);
    r.append(rest);
    r
}

/// The one-character string of digit `d`.
fn digit(d: usize) -> (r: &'static str)
    requires
        d < 10,
    ensures
        r@ == seq![digit_char(d as nat)],
{
    proof {
        reveal_strlit("0");
        reveal_strlit("1");
        reveal_strlit("2");
        reveal_strlit("3");
        reveal_strlit("4");
        reveal_strlit("5");
        reveal_strlit("6");
        reveal_strlit("7");
        reveal_strlit("8");
        reveal_strlit("9");
    }
    match d {
        0 => "0",
        1 => "1",
        2 => "2",
        3 => "3",
        4 => "4",
        5 => "5",
        6 => "6",
        7 => "7",
        8 => "8",
        _ => "9",
    }
}

/// `n` written in decimal.
pub fn decimal_string(n: usize) -> (r: String)
    ensures
        r@ == decimal(n as nat),
    decreases n,
{
    if n < 10 {
        String::from_str(digit(n))
    } else {
        let mut s = decimal_string(n / 10);
        s.append(digit(n % 10));
        s
    }
}

impl From<std::io::Error> for Error {
    fn from(e: std::io::Error) -> (r: Self) {
        Error::Io(e)
    }
}

impl vstd::std_specs::convert::FromSpecImpl<std::io::Error> for Error {
    open spec fn obeys_from_spec() -> bool {
        true
    }

    open spec fn from_spec(v: std::io::Error) -> Self {
        Error::Io(v)
    }
}

} // verus!
