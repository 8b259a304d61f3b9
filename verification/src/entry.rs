use vstd::prelude::*;
use crate::decimal::{
    decimal, digit_char, div_round_even, push_decimal, push_two_digits, div_round_even_exec,
};

verus! {

/// How far the size of an entry is known.
#[derive(Debug, PartialEq, Eq, Structural)]
pub enum SizeState {
    /// Still being computed.
    Pending,
    /// Known, in bytes.
    Calculated(u64),
    /// Could not be computed.
    Error,
}

/// Whether an entry is a file or a directory.
#[derive(Debug, PartialEq, Eq, Structural)]
pub enum EntryType {
    File,
    Directory,
}

/// One line of the listing: a file or directory found while walking the tree.
#[derive(Debug, PartialEq)]
pub struct DirectoryEntry {
    pub name: String,
    pub path: String,
    /// How many levels below the scanned directory the entry lies.
    pub depth: usize,
    pub kind: EntryType,
    pub size_state: SizeState,
}

/// The spacing of the doubles around `n`: 1 below 2^53, and twice as wide
/// with each further binary digit of `n`.
pub open spec fn f64_unit(n: nat) -> nat
    decreases n,
{
    if n < 0x20_0000_0000_0000 {
        1
    } else {
        2 * f64_unit(n / 2)
    }
}

/// The value of `n as f64`: `n` rounded to the nearest double, a tie going to
/// the double with an even significand.
pub open spec fn f64_value(n: nat) -> nat {
    div_round_even(n, f64_unit(n)) * f64_unit(n)
}

/// `v / unit` written with two decimals, rounded to the nearest hundredth, a
/// tie going to the even one, as `format!("{:.2}", ..)` writes a double.
pub open spec fn two_decimals(v: nat, unit: nat) -> Seq<char> {
    let h = div_round_even(v * 100, unit);
    decimal(h / 100) + seq!['.', digit_char((h % 100) / 10), digit_char(h % 10)]
}

/// The size column of an entry.
pub open spec fn size_text_of(state: SizeState) -> Seq<char> {
    match state {
        SizeState::Pending => "[Scanning]"@,
        SizeState::Error => "ERR"@,
        SizeState::Calculated(n) => {
            if n >= 0x4000_0000 {
                two_decimals(f64_value(n as nat), 0x4000_0000) + " GB"@
            } else if n >= 0x10_0000 {
                two_decimals(f64_value(n as nat), 0x10_0000) + " MB"@
            } else if n >= 0x400 {
                two_decimals(f64_value(n as nat), 0x400) + " KB"@
            } else {
                decimal(n as nat) + " B"@
            }
        },
    }
}

/// The value of `n as f64`, as an integer.
fn f64_value_exec(n: u64) -> (v: u128)
    ensures
        v == f64_value(n as nat),
        v <= 0x2_0000_0000_0000_0000,
{
    let mut unit: u64 = 1;
    let mut m: u64 = n;
    while m >= 0x20_0000_0000_0000
        invariant
            1 <= unit <= 4096,
            m == n / unit,
            unit * f64_unit(m as nat) == f64_unit(n as nat),
            m >= 0x20_0000_0000_0000 ==> unit < 2048,
        decreases m,
    {
        proof {
            vstd::arithmetic::div_mod::lemma_div_denominator(n as int, unit as int, 2);
            assert(f64_unit(m as nat) == 2 * f64_unit((m / 2) as nat));
            assert(unit * f64_unit(m as nat) == (unit * 2) * f64_unit((m / 2) as nat)) by (nonlinear_arith)
                requires f64_unit(m as nat) == 2 * f64_unit((m / 2) as nat);
        }
        m = m / 2;
        unit = unit * 2;
        proof {
            if m >= 0x20_0000_0000_0000 {
                vstd::arithmetic::div_mod::lemma_fundamental_div_mod(n as int, unit as int);
                assert(unit < 2048) by (nonlinear_arith)
                    requires
                        n == unit * m + n % unit,
                        n % unit >= 0,
                        m >= 0x20_0000_0000_0000,
                        n <= 0xffff_ffff_ffff_ffff,
                        unit >= 1;
            }
        }
    }
    assert(f64_unit(m as nat) == 1);
    assert(f64_unit(n as nat) == unit) by (nonlinear_arith)
        requires unit * f64_unit(m as nat) == f64_unit(n as nat), f64_unit(m as nat) == 1;
    let rounded = div_round_even_exec(n as u128, unit as u128);
    proof {
        assert(rounded <= 0x20_0000_0000_0000);
        assert(rounded * unit <= 0x2_0000_0000_0000_0000) by (nonlinear_arith)
            requires rounded <= 0x20_0000_0000_0000, unit <= 4096;
    }
    rounded * (unit as u128)
}

/// Appends `v / unit` with two decimals (see `two_decimals`).
fn push_two_decimals(out: &mut String, v: u128, unit: u128)
    requires
        v <= 0x2_0000_0000_0000_0000,
        unit > 0,
    ensures
        final(out)@ == old(out)@ + two_decimals(v as nat, unit as nat),
{
    let h = div_round_even_exec(v * 100, unit);
    push_decimal(out, h / 100);
    proof { reveal_strlit("."); }
    out.append(".");
    push_two_digits(out, h % 100);
    proof {
        assert((h % 100) % 10 == h % 10);
        assert(final(out)@ =~= old(out)@ + two_decimals(v as nat, unit as nat));
    }
}

/// The icon shown before the name of an entry of the given kind.
pub open spec fn icon_of(kind: EntryType) -> Seq<char> {
    match kind {
        EntryType::Directory => "\u{1F4C1}"@,
        EntryType::File => "\u{1F4C4}"@,
    }
}

impl DirectoryEntry {
    /// A file entry. `len` is what reading the file's metadata gave: its
    /// length, or nothing where the metadata could not be read.
    pub fn file(name: String, path: String, depth: usize, len: Option<u64>) -> (r: Self)
        ensures
            r.name == name,
            r.path == path,
            r.depth == depth,
            r.kind == EntryType::File,
            r.size_state == (match len {
                Some(n) => SizeState::Calculated(n),
                None => SizeState::Error,
            }),
    {
        let size_state = match len {
            Some(n) => SizeState::Calculated(n),
            None => SizeState::Error,
        };
        DirectoryEntry { name, path, depth, kind: EntryType::File, size_state }
    }

    /// A directory entry; its size is not known yet.
    pub fn directory(name: String, path: String, depth: usize) -> (r: Self)
        ensures
            r.name == name,
            r.path == path,
            r.depth == depth,
            r.kind == EntryType::Directory,
            r.size_state == SizeState::Pending,
    {
        DirectoryEntry { name, path, depth, kind: EntryType::Directory, size_state: SizeState::Pending }
    }

    /// The size column: `[Scanning]`, `ERR`, or the size in the largest of
    /// GB, MB and KB that it reaches, with two decimals, else in bytes.
    pub fn size_text(&self) -> (r: String)
        ensures
            r@ == size_text_of(self.size_state),
    {
        match self.size_state {
            SizeState::Pending => String::from_str("[Scanning]"),
            SizeState::Error => String::from_str("ERR"),
            SizeState::Calculated(size) => {
                let mut out = String::new();
                if size >= 0x4000_0000 {
                    push_two_decimals(&mut out, f64_value_exec(size), 0x4000_0000);
                    out.append(" GB");
                } else if size >= 0x10_0000 {
                    push_two_decimals(&mut out, f64_value_exec(size), 0x10_0000);
                    out.append(" MB");
                } else if size >= 0x400 {
                    push_two_decimals(&mut out, f64_value_exec(size), 0x400);
                    out.append(" KB");
                } else {
                    push_decimal(&mut out, size as u128);
                    out.append(" B");
                }
                out
            },
        }
    }

    /// The icon of the entry: a folder for a directory, a page for a file.
    pub fn icon(&self) -> (r: &'static str)
        ensures
            r@ == icon_of(self.kind),
    {
        match self.kind {
            EntryType::Directory => "\u{1F4C1}",
            EntryType::File => "\u{1F4C4}",
        }
    }

    /// Records a computed size.
    pub fn set_size(&mut self, size: u64)
        ensures
            final(self).size_state == SizeState::Calculated(size),
            final(self).name == old(self).name,
            final(self).path == old(self).path,
            final(self).depth == old(self).depth,
            final(self).kind == old(self).kind,
    {
        self.size_state = SizeState::Calculated(size);
    }

    /// Records that the size could not be computed.
    pub fn set_error_size(&mut self)
        ensures
            final(self).size_state == SizeState::Error,
            final(self).name == old(self).name,
            final(self).path == old(self).path,
            final(self).depth == old(self).depth,
            final(self).kind == old(self).kind,
    {
        self.size_state = SizeState::Error;
    }

    /// Whether the entry is a directory.
    pub fn is_dir(&self) -> (r: bool)
        ensures
            r == (self.kind == EntryType::Directory),
    {
        match self.kind {
            EntryType::Directory => true,
            _ => false,
        }
    }
}

} // verus!
