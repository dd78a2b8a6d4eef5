//! Domain names: a sequence of labels, their wire form with back-pointer
//! compression on the reading side, and their dotted text form.

use vstd::prelude::*;
use vstd::slice::slice_subrange;
use vstd::slice::slice_to_vec;
use crate::wire::CodecError;
use crate::wire::MAX_LABEL_LEN;
use crate::wire::MAX_POINTER_CHASES;

verus! {

/// A label is between one and sixty-three bytes long.
pub open spec fn valid_label(label: Seq<u8>) -> bool {
    1 <= label.len() <= MAX_LABEL_LEN
}

/// A name is valid when each of its labels is.
pub open spec fn valid_name(labels: Seq<Seq<u8>>) -> bool {
    forall|i: int| 0 <= i < labels.len() ==> valid_label(#[trigger] labels[i])
}

/// The labels held by a vector of byte vectors.
pub open spec fn labels_of(labels: Seq<Vec<u8>>) -> Seq<Seq<u8>> {
    labels.map_values(|l: Vec<u8>| l@)
}

/// The uncompressed wire form of a name: each label behind its length, then
/// a zero byte.
pub open spec fn name_bytes(labels: Seq<Seq<u8>>) -> Seq<u8>
    decreases labels.len(),
{
    if labels.len() == 0 {
        seq![0u8]
    } else {
        seq![labels[0].len() as u8] + labels[0] + name_bytes(labels.drop_first())
    }
}

/// The text form of a name: its labels joined by dots; empty for the root.
pub open spec fn dotted(labels: Seq<Seq<u8>>) -> Seq<u8>
    decreases labels.len(),
{
    if labels.len() == 0 {
        Seq::empty()
    } else if labels.len() == 1 {
        labels[0]
    } else {
        dotted(labels.drop_last()) + seq![46u8] + labels.last()
    }
}

/// The name that starts at `pos` in `buf`, and the position just behind it in
/// the stream it was started from. `budget` is the number of compression
/// pointers that may still be followed.
///
/// A length byte of 0 ends the name; 1 to 63 announces a label of that many
/// bytes; 192 and above opens a two-byte pointer whose target must lie
/// strictly before the pointer itself; anything else is reserved.
pub open spec fn name_at(buf: Seq<u8>, pos: int, budget: nat) -> Result<
    (Seq<Seq<u8>>, int),
    CodecError,
>
    decreases budget, buf.len() - pos,
{
    if pos < 0 || pos >= buf.len() {
        Err(CodecError::Truncated)
    } else {
        let b = buf[pos] as int;
        if b == 0 {
            Ok((Seq::empty(), pos + 1))
        } else if b <= MAX_LABEL_LEN {
            if pos + 1 + b > buf.len() {
                Err(CodecError::Truncated)
            } else {
                match name_at(buf, pos + 1 + b, budget) {
                    Ok((rest, end)) => Ok((seq![buf.subrange(pos + 1, pos + 1 + b)] + rest, end)),
                    Err(e) => Err(e),
                }
            }
        } else if b >= 192 {
            if pos + 2 > buf.len() {
                Err(CodecError::Truncated)
            } else {
                let target = (b - 192) * 256 + buf[pos + 1] as int;
                if target >= pos || budget == 0 {
                    Err(CodecError::MalformedCompression)
                } else {
                    match name_at(buf, target, (budget - 1) as nat) {
                        Ok((rest, _)) => Ok((rest, pos + 2)),
                        Err(e) => Err(e),
                    }
                }
            }
        } else {
            Err(CodecError::MalformedCompression)
        }
    }
}

/// What reading a name gives once `done` labels are in hand, the rest of the
/// name reads as `tail`, and `resume` (if set) is where the stream goes on.
spec fn splice(
    done: Seq<Seq<u8>>,
    tail: Result<(Seq<Seq<u8>>, int), CodecError>,
    resume: Option<int>,
) -> Result<(Seq<Seq<u8>>, int), CodecError> {
    match tail {
        Ok((rest, end)) => Ok(
            (
                done + rest,
                match resume {
                    Some(r) => r,
                    None => end,
                },
            ),
        ),
        Err(e) => Err(e),
    }
}

/// A domain name. Every label it holds is between one and sixty-three bytes
/// long; the root name holds none.
#[derive(Debug, PartialEq, Eq)]
pub struct Name {
    labels: Vec<Vec<u8>>,
}

impl View for Name {
    type V = Seq<Seq<u8>>;

    closed spec fn view(&self) -> Seq<Seq<u8>> {
        labels_of(self.labels@)
    }
}

impl Name {
    #[verifier::type_invariant]
    pub open spec fn well_formed(&self) -> bool {
        valid_name(self@)
    }

    /// The root name.
    pub fn root() -> (name: Name)
        ensures
            name@ == Seq::<Seq<u8>>::empty(),
            name.well_formed(),
    {
        let labels: Vec<Vec<u8>> = Vec::new();
        assert(labels_of(labels@) =~= Seq::<Seq<u8>>::empty());
        Name { labels }
    }

    /// The name made of `labels`, unless one of them is empty or longer than
    /// sixty-three bytes.
    pub fn from_labels(labels: Vec<Vec<u8>>) -> (made: Option<Name>)
        ensures
            made is Some <==> valid_name(labels_of(labels@)),
            made matches Some(name) ==> name@ == labels_of(labels@) && name.well_formed(),
    {
        let n = labels.len();
        let mut i: usize = 0;
        while i < n
            invariant
                i <= n,
                n == labels.len(),
                forall|j: int| 0 <= j < i ==> valid_label(#[trigger] labels_of(labels@)[j]),
            decreases n - i,
        {
            let len = labels[i].len();
            if len == 0 || len > MAX_LABEL_LEN {
                assert(!valid_label(labels_of(labels@)[i as int]));
                return None;
            }
            i += 1;
        }
        Some(Name { labels })
    }

    /// How many labels the name has.
    pub fn label_count(&self) -> (n: usize)
        ensures
            n == self@.len(),
    {
        self.labels.len()
    }

    /// The label at `index`.
    pub fn label(&self, index: usize) -> (label: &Vec<u8>)
        requires
            index < self@.len(),
        ensures
            label@ == self@[index as int],
            valid_label(label@),
    {
        proof {
            use_type_invariant(self);
            assert(valid_label(self@[index as int]));
        }
        &self.labels[index]
    }

    /// A copy of the labels.
    pub fn labels(&self) -> (copy: Vec<Vec<u8>>)
        ensures
            labels_of(copy@) == self@,
            valid_name(self@),
    {
        proof {
            use_type_invariant(self);
        }
        copy_labels(&self.labels)
    }

    /// A copy of the name.
    pub fn duplicate(&self) -> (copy: Name)
        ensures
            copy@ == self@,
            copy.well_formed(),
    {
        proof {
            use_type_invariant(self);
        }
        Name { labels: copy_labels(&self.labels) }
    }

    /// The name as text: its labels joined by dots.
    pub fn to_dotted(&self) -> (text: Vec<u8>)
        ensures
            text@ == dotted(self@),
    {
        let n = self.labels.len();
        let mut text: Vec<u8> = Vec::new();
        let mut i: usize = 0;
        while i < n
            invariant
                i <= n,
                n == self.labels.len(),
                text@ == dotted(self@.take(i as int)),
            decreases n - i,
        {
            let ghost before = self@.take(i as int);
            let ghost after = self@.take(i as int + 1);
            assert(after.drop_last() =~= before);
            assert(after.last() == self@[i as int]);
            assert(self@[i as int] == self.labels@[i as int]@);
            if i > 0 {
                text.push(46u8);
            }
            text.extend_from_slice(self.labels[i].as_slice());
            assert(text@ =~= dotted(after));
            i += 1;
        }
        assert(self@.take(n as int) =~= self@);
        text
    }
}

/// Copies a vector of labels.
fn copy_labels(labels: &Vec<Vec<u8>>) -> (copy: Vec<Vec<u8>>)
    ensures
        labels_of(copy@) == labels_of(labels@),
{
    let n = labels.len();
    let mut copy: Vec<Vec<u8>> = Vec::new();
    let mut i: usize = 0;
    while i < n
        invariant
            i <= n,
            n == labels.len(),
            copy.len() == i,
            forall|j: int| 0 <= j < i ==> copy@[j]@ == labels@[j]@,
        decreases n - i,
    {
        let label = slice_to_vec(labels[i].as_slice());
        copy.push(label);
        i += 1;
    }
    assert(labels_of(copy@) =~= labels_of(labels@));
    copy
}

/// Reads the name that starts at `start`, following compression pointers.
/// Returns the name and the position just behind it.
pub fn read_name(buf: &[u8], start: usize) -> (r: Result<(Name, usize), CodecError>)
    ensures
        match r {
            Ok((name, end)) => name_at(buf@, start as int, MAX_POINTER_CHASES as nat) == Ok::<
                (Seq<Seq<u8>>, int),
                CodecError,
            >((name@, end as int)) && name.well_formed(),
            Err(e) => name_at(buf@, start as int, MAX_POINTER_CHASES as nat) == Err::<
                (Seq<Seq<u8>>, int),
                CodecError,
            >(e),
        },
{
    let mut labels: Vec<Vec<u8>> = Vec::new();
    let mut pos: usize = start;
    let mut budget: usize = MAX_POINTER_CHASES;
    let mut resume: Option<usize> = None;
    assert(labels_of(labels@) =~= Seq::<Seq<u8>>::empty());
    proof {
        let whole = name_at(buf@, start as int, MAX_POINTER_CHASES as nat);
        match whole {
            Ok((rest, end)) => {
                assert(Seq::<Seq<u8>>::empty() + rest =~= rest);
            },
            Err(_) => {},
        }
    }
    loop
        invariant
            budget <= MAX_POINTER_CHASES,
            valid_name(labels_of(labels@)),
            resume matches Some(r) ==> r <= buf.len(),
            name_at(buf@, start as int, MAX_POINTER_CHASES as nat) == splice(
                labels_of(labels@),
                name_at(buf@, pos as int, budget as nat),
                match resume {
                    Some(r) => Some(r as int),
                    None => None,
                },
            ),
        decreases budget, buf.len() - pos,
    {
        if pos >= buf.len() {
            return Err(CodecError::Truncated);
        }
        let b = buf[pos];
        if b == 0 {
            let end = match resume {
                Some(r) => r,
                None => pos + 1,
            };
            assert(labels_of(labels@) + Seq::<Seq<u8>>::empty() =~= labels_of(labels@));
            return Ok((Name { labels }, end));
        } else if b as usize <= MAX_LABEL_LEN {
            let len = b as usize;
            if len > buf.len() - pos - 1 {
                return Err(CodecError::Truncated);
            }
            let label = slice_to_vec(slice_subrange(buf, pos + 1, pos + 1 + len));
            proof {
                let done = labels_of(labels@);
                let next = name_at(buf@, pos + 1 + len, budget as nat);
                assert(labels_of(labels@.push(label)) =~= done.push(label@));
                match next {
                    Ok((rest, end)) => {
                        assert(done + (seq![label@] + rest) =~= done.push(label@) + rest);
                    },
                    Err(_) => {},
                }
            }
            labels.push(label);
            pos = pos + 1 + len;
        } else if b >= 192 {
            if buf.len() - pos < 2 {
                return Err(CodecError::Truncated);
            }
            let target = (b - 192) as usize * 256 + buf[pos + 1] as usize;
            if target >= pos || budget == 0 {
                return Err(CodecError::MalformedCompression);
            }
            if resume.is_none() {
                resume = Some(pos + 2);
            }
            pos = target;
            budget = budget - 1;
        } else {
            return Err(CodecError::MalformedCompression);
        }
    }
}

/// Appends the uncompressed wire form of `name`.
pub fn write_name(out: &mut Vec<u8>, name: &Name)
    ensures
        final(out)@ == old(out)@ + name_bytes(name@),
        valid_name(name@),
{
    proof {
        use_type_invariant(name);
    }
    let ghost start = out@;
    let n = name.labels.len();
    let mut i: usize = 0;
    assert(name@.skip(0) =~= name@);
    while i < n
        invariant
            i <= n,
            n == name.labels.len(),
            valid_name(name@),
            start + name_bytes(name@) == out@ + name_bytes(name@.skip(i as int)),
        decreases n - i,
    {
        let label = &name.labels[i];
        proof {
            let rest = name@.skip(i as int);
            assert(rest[0] == label@);
            assert(rest.drop_first() =~= name@.skip(i as int + 1));
            assert(valid_label(name@[i as int]));
            assert(out@ + name_bytes(rest) =~= out@.push(label@.len() as u8) + label@
                + name_bytes(name@.skip(i as int + 1)));
        }
        out.push(label.len() as u8);
        out.extend_from_slice(label.as_slice());
        i += 1;
    }
    proof {
        assert(name@.skip(n as int).len() == 0);
        assert(out@ + name_bytes(name@.skip(n as int)) =~= out@.push(0u8));
    }
    out.push(0);
}

} // verus!
