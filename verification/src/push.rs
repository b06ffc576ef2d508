//! The length prefix of a data push.
//!
//! A push announces the length of its payload in one of four forms. The
//! narrowest form that can hold the length is the only one ever written.

use vstd::prelude::*;

verus! {

/// The four forms of a push's length prefix.
pub ghost enum PushForm {
    /// The opcode itself is the length, 0 to 75.
    Direct,
    /// `OP_PUSHDATA1` and one byte of length.
    Data1,
    /// `OP_PUSHDATA2` and two bytes of length, little endian.
    Data2,
    /// `OP_PUSHDATA4` and four bytes of length, little endian.
    Data4,
}

impl PushForm {
    /// The number of bytes that a prefix of this form takes.
    pub open spec fn width(self) -> nat {
        match self {
            PushForm::Direct => 1,
            PushForm::Data1 => 2,
            PushForm::Data2 => 3,
            PushForm::Data4 => 5,
        }
    }

    /// The longest payload that this form can announce.
    pub open spec fn max_len(self) -> nat {
        match self {
            PushForm::Direct => 75,
            PushForm::Data1 => 0xff,
            PushForm::Data2 => 0xffff,
            PushForm::Data4 => 0xffff_ffff,
        }
    }

    /// Whether this form can announce a payload of `len` bytes.
    pub open spec fn fits(self, len: nat) -> bool {
        len <= self.max_len()
    }

    /// The form that is written for a payload of `len` bytes.
    pub open spec fn narrowest(len: nat) -> PushForm {
        if len <= 75 {
            PushForm::Direct
        } else if len <= 0xff {
            PushForm::Data1
        } else if len <= 0xffff {
            PushForm::Data2
        } else {
            PushForm::Data4
        }
    }

    /// The prefix of this form for a payload of `len` bytes. Of a length that
    /// the form cannot hold, the low bytes are written.
    pub open spec fn prefix(self, len: nat) -> Seq<u8> {
        match self {
            PushForm::Direct => seq![(len % 256) as u8],
            PushForm::Data1 => seq![0x4cu8, (len % 256) as u8],
            PushForm::Data2 => seq![0x4du8, (len % 256) as u8, (len / 0x100 % 256) as u8],
            PushForm::Data4 => seq![
                0x4eu8,
                (len % 256) as u8,
                (len / 0x100 % 256) as u8,
                (len / 0x1_0000 % 256) as u8,
                (len / 0x100_0000 % 256) as u8,
            ],
        }
    }
}

/// The prefix that is written before a payload of `len` bytes.
pub open spec fn push_prefix(len: nat) -> Seq<u8> {
    PushForm::narrowest(len).prefix(len)
}

/// The form and the announced length that a reader finds at the start of
/// `bytes`, if they start with a whole push prefix.
pub open spec fn read_prefix(bytes: Seq<u8>) -> Option<(PushForm, nat)> {
    if bytes.len() >= 1 && bytes[0] <= 75 {
        Some((PushForm::Direct, bytes[0] as nat))
    } else if bytes.len() >= 2 && bytes[0] == 0x4c {
        Some((PushForm::Data1, bytes[1] as nat))
    } else if bytes.len() >= 3 && bytes[0] == 0x4d {
        Some((PushForm::Data2, (bytes[1] + 0x100 * bytes[2]) as nat))
    } else if bytes.len() >= 5 && bytes[0] == 0x4e {
        Some(
            (
                PushForm::Data4,
                (bytes[1] + 0x100 * bytes[2] + 0x1_0000 * bytes[3] + 0x100_0000 * bytes[4]) as nat,
            ),
        )
    } else {
        None
    }
}

/// Appends to `out` the prefix for a payload of `len` bytes.
pub fn append_push_prefix(out: &mut Vec<u8>, len: usize)
    ensures
        final(out)@ == old(out)@ + push_prefix(len as nat),
{
    let n: u64 = len as u64;
    proof {
        assert(n & 0xff == n % 256) by (bit_vector);
        assert((n >> 8) & 0xff == n / 0x100 % 256) by (bit_vector);
        assert((n >> 16) & 0xff == n / 0x1_0000 % 256) by (bit_vector);
        assert((n >> 24) & 0xff == n / 0x100_0000 % 256) by (bit_vector);
    }
    if n <= 75 {
        out.push(n as u8);
    } else if n <= 0xff {
        out.push(0x4c);
        out.push(n as u8);
    } else if n <= 0xffff {
        out.push(0x4d);
        out.push((n & 0xff) as u8);
        out.push(((n >> 8) & 0xff) as u8);
    } else {
        out.push(0x4e);
        out.push((n & 0xff) as u8);
        out.push(((n >> 8) & 0xff) as u8);
        out.push(((n >> 16) & 0xff) as u8);
        out.push(((n >> 24) & 0xff) as u8);
    }
    assert(out@ =~= old(out)@ + push_prefix(len as nat));
}

/// A reader finds in a written prefix the form it was written in and the
/// length it announces, whatever follows the prefix. This holds of every form
/// that can hold the length, the narrowest or not.
pub proof fn lemma_read_prefix_of_form(form: PushForm, len: nat, rest: Seq<u8>)
    requires
        form.fits(len),
    ensures
        form.prefix(len).len() == form.width(),
        read_prefix(form.prefix(len) + rest) == Some((form, len)),
{
    let bytes = form.prefix(len) + rest;
    assert(forall|i: int| 0 <= i < form.prefix(len).len() ==> bytes[i] == form.prefix(len)[i]);
}

/// The prefix that is written for a length reads back as that length, in the
/// form that was chosen for it.
pub proof fn lemma_prefix_round_trip(len: nat, rest: Seq<u8>)
    requires
        len <= 0xffff_ffff,
    ensures
        read_prefix(push_prefix(len) + rest) == Some((PushForm::narrowest(len), len)),
{
    lemma_read_prefix_of_form(PushForm::narrowest(len), len, rest);
}

/// The form that is written can hold the length, and no form that can hold
/// the length is narrower.
pub proof fn lemma_prefix_is_narrowest(len: nat, form: PushForm)
    requires
        form.fits(len),
    ensures
        PushForm::narrowest(len).fits(len),
        PushForm::narrowest(len).width() <= form.width(),
        PushForm::narrowest(len).max_len() <= form.max_len(),
        push_prefix(len).len() == PushForm::narrowest(len).width(),
{
}

} // verus!
