//! Session identifiers.

use vstd::prelude::*;

verus! {

/// Identifies one reservation session.
#[derive(Clone, Copy, Debug, PartialEq, Eq, Hash)]
pub struct SessionUUID {
    pub uuid: [u8; 16],
}

impl View for SessionUUID {
    type V = Seq<u8>;

    open spec fn view(&self) -> Seq<u8> {
        self.uuid@
    }
}

/// The lower-case hexadecimal digit for `n`.
pub open spec fn hex_digit(n: int) -> char {
    if n < 10 {
        (48 + n) as char
    } else {
        (87 + n) as char
    }
}

/// Two hexadecimal digits for each byte.
pub open spec fn hex_text(bytes: Seq<u8>) -> Seq<char>
    decreases bytes.len(),
{
    if bytes.len() == 0 {
        Seq::empty()
    } else {
        hex_text(bytes.drop_last()) + seq![
            hex_digit(bytes.last() as int / 16),
            hex_digit(bytes.last() as int % 16),
        ]
    }
}

/// The text form of an identifier: hexadecimal digits in groups of 8, 4, 4, 4 and 12.
pub open spec fn session_text(id: Seq<u8>) -> Seq<char> {
    hex_text(id.subrange(0, 4)) + seq!['-'] + hex_text(id.subrange(4, 6)) + seq!['-'] + hex_text(
        id.subrange(6, 8),
    ) + seq!['-'] + hex_text(id.subrange(8, 10)) + seq!['-'] + hex_text(id.subrange(10, 16))
}

/// The text of one hexadecimal digit.
fn digit(n: u8) -> (r: &'static str)
    requires
        n < 16,
    ensures
        r@ == seq![hex_digit(n as int)],
{
    proof {
        reveal_strlit("0");
        reveal_strlit("1");
        reveal_strlit("2");
        reveal_strlit("3");
        reveal_strlit("4");
        reveal_strlit("5");
        reveal_strlit("6");
        reveal_strlit("7");
        reveal_strlit("8");
        reveal_strlit("9");
        reveal_strlit("a");
        reveal_strlit("b");
        reveal_strlit("c");
        reveal_strlit("d");
        reveal_strlit("e");
        reveal_strlit("f");
    }
    let r: &'static str = match n {
        0 => "0",
        1 => "1",
        2 => "2",
        3 => "3",
        4 => "4",
        5 => "5",
        6 => "6",
        7 => "7",
        8 => "8",
        9 => "9",
        10 => "a",
        11 => "b",
        12 => "c",
        13 => "d",
        14 => "e",
        _ => "f",
    };
    assert(r@ =~= seq![hex_digit(n as int)]);
    r
}

impl SessionUUID {
    /// `==` on session identifiers.
    pub fn same(&self, other: &SessionUUID) -> (r: bool)
        ensures
            r == (self@ == other@),
    {
        let mut i: usize = 0;
        while i < 16
            invariant
                i <= 16,
                forall|j: int| 0 <= j < i ==> self@[j] == other@[j],
            decreases 16 - i,
        {
            if self.uuid[i] != other.uuid[i] {
                assert(self@[i as int] != other@[i as int]);
                return false;
            }
            i = i + 1;
        }
        assert(self@ =~= other@);
        true
    }

    /// Appends the digits of the bytes from `from` up to `to`.
    fn append_hex(&self, out: &mut String, from: usize, to: usize)
        requires
            from <= to <= 16,
        ensures
            final(out)@ == old(out)@ + hex_text(self@.subrange(from as int, to as int)),
    {
        let mut i: usize = from;
        let ghost start: Seq<char> = out@;
        assert(self@.subrange(from as int, from as int) =~= Seq::<u8>::empty());
        assert(start + Seq::<char>::empty() =~= start);
        while i < to
            invariant
                from <= i <= to <= 16,
                out@ == start + hex_text(self@.subrange(from as int, i as int)),
            decreases to - i,
        {
            let b: u8 = self.uuid[i];
            let high: &'static str = digit(b / 16);
            let low: &'static str = digit(b % 16);
            out.append(high);
            out.append(low);
            proof {
                let grown: Seq<u8> = self@.subrange(from as int, i + 1);
                assert(grown.drop_last() =~= self@.subrange(from as int, i as int));
                assert(grown.last() == b);
                assert(out@ =~= start + hex_text(grown));
            }
            i = i + 1;
        }
    }

    /// The text form of the identifier.
    pub fn to_text(&self) -> (r: String)
        ensures
            r@ == session_text(self@),
    {
        proof {
            reveal_strlit("-");
            assert("-"@ =~= seq!['-']);
        }
        let mut out: String = String::new();
        self.append_hex(&mut out, 0, 4);
        out.append("-");
        self.append_hex(&mut out, 4, 6);
        out.append("-");
        self.append_hex(&mut out, 6, 8);
        out.append("-");
        self.append_hex(&mut out, 8, 10);
        out.append("-");
        self.append_hex(&mut out, 10, 16);
        assert(out@ =~= session_text(self@));
        out
    }
}

} // verus!
