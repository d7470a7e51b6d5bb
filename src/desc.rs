//! The schema descriptor: a tree that names the columns of the tabular format.
use vstd::prelude::*;
use crate::text::{dec_digits, push_dec};
use vstd::string::StringSliceAdditionalSpecFns;

verus! {

/// The shape of a record as the tabular format sees it.
pub enum Desc {
    /// A value that may be absent; it has the columns of the inner shape.
    Option(Box<Desc>),
    /// A fixed number of children of one shape, named by their index.
    Array(usize, Box<Desc>),
    /// Named children, in order. A child with an empty name is flattened.
    Struct(Box<Fields>),
    /// One column.
    Atom,
}

/// The children of a `Desc::Struct`, first to last.
pub enum Fields {
    End,
    Field(&'static str, Box<Desc>, Box<Fields>),
}

/// The number of leaf columns of a shape.
pub open spec fn columns(d: Desc) -> nat
    decreases d,
{
    match d {
        Desc::Option(i) => columns(*i),
        Desc::Array(n, i) => (n * columns(*i)) as nat,
        Desc::Struct(f) => fields_columns(*f),
        Desc::Atom => 1,
    }
}

pub open spec fn fields_columns(f: Fields) -> nat
    decreases f,
{
    match f {
        Fields::End => 0,
        Fields::Field(_, d, rest) => columns(*d) + fields_columns(*rest),
    }
}

/// The dotted path of a child: no dot when either side is empty.
pub open spec fn join_name(p: Seq<u8>, n: Seq<u8>) -> Seq<u8> {
    if p.len() == 0 {
        n
    } else if n.len() == 0 {
        p
    } else {
        p + seq![46u8] + n
    }
}

/// The header text of a shape under a prefix: each leaf's dotted path followed by a space,
/// depth first.
pub open spec fn header(d: Desc, p: Seq<u8>) -> Seq<u8>
    decreases d, 0nat, 0nat,
{
    match d {
        Desc::Option(i) => header(*i, p),
        Desc::Array(n, i) => array_header(*i, p, n as nat),
        Desc::Struct(f) => fields_header(*f, p),
        Desc::Atom => p.push(32u8),
    }
}

/// The header of the first `k` elements of an array.
pub open spec fn array_header(inner: Desc, p: Seq<u8>, k: nat) -> Seq<u8>
    decreases inner, 1nat, k,
{
    if k == 0 {
        Seq::empty()
    } else {
        array_header(inner, p, (k - 1) as nat) + header(
            inner,
            join_name(p, dec_digits((k - 1) as nat)),
        )
    }
}

pub open spec fn fields_header(f: Fields, p: Seq<u8>) -> Seq<u8>
    decreases f, 0nat, 0nat,
{
    match f {
        Fields::End => Seq::empty(),
        Fields::Field(n, d, rest) => header(*d, join_name(p, n.spec_bytes())) + fields_header(*rest, p),
    }
}

/// The number of spaces in a text.
pub open spec fn count_spaces(s: Seq<u8>) -> nat
    decreases s.len(),
{
    if s.len() == 0 {
        0
    } else {
        count_spaces(s.drop_last()) + if s.last() == 32u8 { 1nat } else { 0nat }
    }
}

/// No name in the shape holds a space.
pub open spec fn names_without_space(d: Desc) -> bool
    decreases d,
{
    match d {
        Desc::Option(i) => names_without_space(*i),
        Desc::Array(_, i) => names_without_space(*i),
        Desc::Struct(f) => fields_without_space(*f),
        Desc::Atom => true,
    }
}

pub open spec fn fields_without_space(f: Fields) -> bool
    decreases f,
{
    match f {
        Fields::End => true,
        Fields::Field(n, d, rest) => count_spaces(n.spec_bytes()) == 0 && names_without_space(*d)
            && fields_without_space(*rest),
    }
}

pub proof fn lemma_count_spaces_concat(a: Seq<u8>, b: Seq<u8>)
    ensures
        count_spaces(a + b) == count_spaces(a) + count_spaces(b),
    decreases b.len(),
{
    if b.len() == 0 {
        assert(a + b =~= a);
    } else {
        lemma_count_spaces_concat(a, b.drop_last());
        assert((a + b).drop_last() =~= a + b.drop_last());
    }
}

proof fn lemma_digits_without_space(n: nat)
    ensures
        count_spaces(dec_digits(n)) == 0,
    decreases n,
{
    if n >= 10 {
        lemma_digits_without_space(n / 10);
        assert(dec_digits(n).drop_last() =~= dec_digits(n / 10));
        assert(dec_digits(n).last() != 32u8);
    } else {
        assert(dec_digits(n).drop_last() =~= Seq::<u8>::empty());
        assert(dec_digits(n).last() != 32u8);
        assert(count_spaces(Seq::<u8>::empty()) == 0);
    }
}

proof fn lemma_join_without_space(p: Seq<u8>, n: Seq<u8>)
    requires
        count_spaces(p) == 0,
        count_spaces(n) == 0,
    ensures
        count_spaces(join_name(p, n)) == 0,
{
    lemma_count_spaces_concat(p, seq![46u8]);
    lemma_count_spaces_concat(p + seq![46u8], n);
    assert(seq![46u8].drop_last() =~= Seq::<u8>::empty());
    assert(count_spaces(Seq::<u8>::empty()) == 0);
    assert(count_spaces(seq![46u8]) == 0);
}

/// Each column of a shape contributes exactly one space to its header, so the header
/// holds as many space-separated names as the shape has columns.
pub proof fn lemma_header_columns(d: Desc, p: Seq<u8>)
    requires
        names_without_space(d),
        count_spaces(p) == 0,
    ensures
        count_spaces(header(d, p)) == columns(d),
    decreases d,
{
    match d {
        Desc::Option(i) => {
            lemma_header_columns(*i, p);
        },
        Desc::Array(n, i) => {
            assert forall|q: Seq<u8>| count_spaces(q) == 0 implies count_spaces(#[trigger] header(*i, q))
                == columns(*i) by {
                lemma_header_columns(*i, q);
            }
            lemma_array_header_columns(*i, p, n as nat);
        },
        Desc::Struct(f) => {
            lemma_fields_header_columns(*f, p);
        },
        Desc::Atom => {
            assert(p.push(32u8).drop_last() =~= p);
        },
    }
}

proof fn lemma_array_header_columns(inner: Desc, p: Seq<u8>, k: nat)
    requires
        count_spaces(p) == 0,
        forall|q: Seq<u8>| count_spaces(q) == 0 ==> count_spaces(#[trigger] header(inner, q))
            == columns(inner),
    ensures
        count_spaces(array_header(inner, p, k)) == k * columns(inner),
    decreases k,
{
    if k > 0 {
        let q = join_name(p, dec_digits((k - 1) as nat));
        lemma_array_header_columns(inner, p, (k - 1) as nat);
        lemma_digits_without_space((k - 1) as nat);
        lemma_join_without_space(p, dec_digits((k - 1) as nat));
        lemma_count_spaces_concat(array_header(inner, p, (k - 1) as nat), header(inner, q));
        assert((k - 1) * columns(inner) + columns(inner) == k * columns(inner)) by (nonlinear_arith);
    } else {
        assert(count_spaces(Seq::<u8>::empty()) == 0);
    }
}

proof fn lemma_fields_header_columns(f: Fields, p: Seq<u8>)
    requires
        fields_without_space(f),
        count_spaces(p) == 0,
    ensures
        count_spaces(fields_header(f, p)) == fields_columns(f),
    decreases f,
{
    match f {
        Fields::End => {},
        Fields::Field(n, d, rest) => {
            lemma_join_without_space(p, n.spec_bytes());
            lemma_header_columns(*d, join_name(p, n.spec_bytes()));
            lemma_fields_header_columns(*rest, p);
            lemma_count_spaces_concat(
                header(*d, join_name(p, n.spec_bytes())),
                fields_header(*rest, p),
            );
        },
    }
}

impl Desc {
    /// The number of leaf columns.
    pub fn len(&self) -> (r: usize)
        requires
            columns(*self) <= usize::MAX,
        ensures
            r == columns(*self),
        decreases *self,
    {
        match self {
            Desc::Option(i) => i.len(),
            Desc::Array(n, i) => {
                proof {
                    assert(columns(**i) <= columns(*self) || *n == 0) by (nonlinear_arith)
                        requires
                            columns(*self) == *n * columns(**i),
                    ;
                }
                if *n == 0 {
                    0
                } else {
                    *n * i.len()
                }
            },
            Desc::Struct(f) => fields_len(f),
            Desc::Atom => 1,
        }
    }

    /// Whether the shape has no column at all.
    pub fn is_empty(&self) -> (r: bool)
        requires
            columns(*self) <= usize::MAX,
        ensures
            r == (columns(*self) == 0),
    {
        self.len() == 0
    }

    /// The exact byte length of the header of this shape.
    pub fn desc_size(&self) -> (r: usize)
        ensures
            r == header(*self, Seq::empty()).len(),
    {
        let mut w = Writer::new();
        let prefix: Vec<u8> = Vec::new();
        cprint(&mut w, prefix.as_slice(), self);
        proof {
            assert(w.out@ =~= Seq::<u8>::empty() + header(*self, prefix@));
        }
        w.out.len()
    }
}

fn fields_len(f: &Fields) -> (r: usize)
    requires
        fields_columns(*f) <= usize::MAX,
    ensures
        r == fields_columns(*f),
    decreases *f,
{
    match f {
        Fields::End => 0,
        Fields::Field(_, d, rest) => d.len() + fields_len(rest),
    }
}

/// An append-only text buffer.
pub struct Writer {
    pub out: Vec<u8>,
}

impl Writer {
    pub fn new() -> (r: Self)
        ensures
            r.out@ == Seq::<u8>::empty(),
    {
        Writer { out: Vec::new() }
    }

    /// Appends the bytes of a string.
    pub fn extend(&mut self, s: &[u8])
        ensures
            final(self).out@ == old(self).out@ + s@,
    {
        let mut i: usize = 0;
        while i < s.len()
            invariant
                0 <= i <= s@.len(),
                self.out@ == old(self).out@ + s@.subrange(0, i as int),
            decreases s@.len() - i,
        {
            self.out.push(s[i]);
            i = i + 1;
            proof {
                assert(self.out@ =~= old(self).out@ + s@.subrange(0, i as int));
            }
        }
        proof {
            assert(s@.subrange(0, s@.len() as int) =~= s@);
        }
    }

    /// Appends the decimal digits of a number.
    pub fn num(&mut self, number: usize)
        ensures
            final(self).out@ == old(self).out@ + dec_digits(number as nat),
    {
        push_dec(&mut self.out, number as u64);
    }

    /// The text written so far.
    pub fn get_str(&self) -> (r: &[u8])
        ensures
            r@ == self.out@,
    {
        self.out.as_slice()
    }
}

/// Writes `join_name(prefix, name)` into a fresh buffer.
fn joined(prefix: &[u8], name: &[u8]) -> (r: Vec<u8>)
    ensures
        r@ == join_name(prefix@, name@),
{
    let mut w = Writer::new();
    w.extend(prefix);
    if prefix.len() != 0 && name.len() != 0 {
        w.extend(&[46u8]);
    }
    w.extend(name);
    proof {
        assert(w.out@ =~= join_name(prefix@, name@));
    }
    w.out
}

/// Writes the header of a shape under a prefix: each leaf's dotted path and a space.
#[verifier::loop_isolation(false)]
pub fn cprint(write: &mut Writer, prefix: &[u8], desc: &Desc)
    ensures
        final(write).out@ == old(write).out@ + header(*desc, prefix@),
    decreases *desc,
{
    match desc {
        Desc::Option(d) => cprint(write, prefix, d),
        Desc::Array(n, d) => {
            let mut i: usize = 0;
            proof {
                assert(write.out@ =~= old(write).out@ + array_header(**d, prefix@, 0));
            }
            while i < *n
                invariant
                    0 <= i <= *n,
                    write.out@ == old(write).out@ + array_header(**d, prefix@, i as nat),
                decreases *n - i,
            {
                let mut idx = Writer::new();
                idx.num(i);
                let name = joined(prefix, idx.get_str());
                cprint(write, name.as_slice(), d);
                i = i + 1;
                proof {
                    assert(write.out@ =~= old(write).out@ + array_header(**d, prefix@, i as nat));
                }
            }

        },
        Desc::Struct(f) => cprint_fields(write, prefix, f),
        Desc::Atom => {
            write.extend(prefix);
            write.extend(&[32u8]);
            proof {
                assert(write.out@ =~= old(write).out@ + prefix@.push(32u8));
            }
        },
    }
}

fn cprint_fields(write: &mut Writer, prefix: &[u8], f: &Fields)
    ensures
        final(write).out@ == old(write).out@ + fields_header(*f, prefix@),
    decreases *f,
{
    match f {
        Fields::End => {
            proof {
                assert(write.out@ =~= old(write).out@ + fields_header(*f, prefix@));
            }
        },
        Fields::Field(n, d, rest) => {
            let name = joined(prefix, n.as_bytes());
            cprint(write, name.as_slice(), d);
            cprint_fields(write, prefix, rest);
            proof {
                assert(write.out@ =~= old(write).out@ + fields_header(*f, prefix@));
            }
        },
    }
}

/// Copies `src` into `dst` starting at position `shift`.
pub fn copy(src: &[u8], dst: &mut Vec<u8>, shift: usize)
    requires
        shift + src@.len() <= old(dst)@.len(),
    ensures
        final(dst)@.len() == old(dst)@.len(),
        final(dst)@ == old(dst)@.subrange(0, shift as int) + src@ + old(dst)@.subrange(
            shift + src@.len(),
            old(dst)@.len() as int,
        ),
{
    let dl = dst.len();
    let mut i: usize = 0;
    while i < src.len()
        invariant
            0 <= i <= src@.len(),
            dl == old(dst)@.len(),
            shift + src@.len() <= old(dst)@.len(),
            dst@.len() == old(dst)@.len(),
            forall|k: int| 0 <= k < shift ==> dst@[k] == old(dst)@[k],
            forall|k: int| 0 <= k < i ==> dst@[shift + k] == src@[k],
            forall|k: int| shift + i <= k < dst@.len() ==> dst@[k] == old(dst)@[k],
        decreases src@.len() - i,
    {
        dst.set(shift + i, src[i]);
        i = i + 1;
    }
    proof {
        assert(dst@ =~= old(dst)@.subrange(0, shift as int) + src@ + old(dst)@.subrange(
            shift + src@.len(),
            old(dst)@.len() as int,
        ));
    }
}

/// The total length of the names `prefix + field` for each field.
pub fn fieldnamelen(prefix: &[u8], fields: &Vec<&'static str>) -> (r: usize)
    requires
        names_len(prefix@.len(), fields@) <= usize::MAX,
    ensures
        r == names_len(prefix@.len(), fields@),
{
    let mut i: usize = 0;
    let mut o: usize = 0;
    while i < fields.len()
        invariant
            0 <= i <= fields@.len(),
            names_len(prefix@.len(), fields@) <= usize::MAX,
            o == names_len(prefix@.len(), fields@.subrange(0, i as int)),
        decreases fields@.len() - i,
    {
        let n = fields[i].as_bytes().len();
        proof {
            assert(fields@.subrange(0, i + 1).drop_last() =~= fields@.subrange(0, i as int));
            lemma_names_len_prefix(prefix@.len(), fields@, i + 1);
        }
        o = o + prefix.len() + n;
        i = i + 1;
    }
    proof {
        assert(fields@.subrange(0, fields@.len() as int) =~= fields@);
    }
    o
}

proof fn lemma_names_len_prefix(plen: nat, fields: Seq<&'static str>, k: int)
    requires
        0 <= k <= fields.len(),
    ensures
        names_len(plen, fields.subrange(0, k)) <= names_len(plen, fields),
    decreases fields.len() - k,
{
    if k < fields.len() {
        lemma_names_len_prefix(plen, fields, k + 1);
        assert(fields.subrange(0, k + 1).drop_last() =~= fields.subrange(0, k));
    } else {
        assert(fields.subrange(0, k) =~= fields);
    }
}

pub open spec fn names_len(plen: nat, fields: Seq<&'static str>) -> nat
    decreases fields.len(),
{
    if fields.len() == 0 {
        0
    } else {
        names_len(plen, fields.drop_last()) + plen + fields.last().spec_bytes().len()
    }
}

/// Cuts `buf` at the given increasing end positions.
pub fn splitarr(split: &[usize], buf: &[u8]) -> (r: Vec<Vec<u8>>)
    requires
        forall|i: int, j: int| 0 <= i <= j < split@.len() ==> split@[i] <= split@[j],
        split@.len() > 0 ==> split@[split@.len() - 1] <= buf@.len(),
    ensures
        r@.len() == split@.len(),
        forall|i: int|
            0 <= i < split@.len() ==> (#[trigger] r@[i])@ == buf@.subrange(
                if i == 0 { 0 } else { split@[i - 1] as int },
                split@[i] as int,
            ),
{
    let mut a: Vec<Vec<u8>> = Vec::new();
    let mut i: usize = 0;
    let mut o: usize = 0;
    while i < split.len()
        invariant
            0 <= i <= split@.len(),
            forall|i: int, j: int| 0 <= i <= j < split@.len() ==> split@[i] <= split@[j],
            split@.len() > 0 ==> split@[split@.len() - 1] <= buf@.len(),
            o == if i == 0 { 0 } else { split@[i - 1] as int },
            a@.len() == i,
            forall|k: int|
                0 <= k < i ==> (#[trigger] a@[k])@ == buf@.subrange(
                    if k == 0 { 0 } else { split@[k - 1] as int },
                    split@[k] as int,
                ),
        decreases split@.len() - i,
    {
        let end = split[i];
        let mut part: Vec<u8> = Vec::new();
        let mut j: usize = o;
        while j < end
            invariant
                o <= j <= end,
                end <= buf@.len(),
                part@ == buf@.subrange(o as int, j as int),
            decreases end - j,
        {
            part.push(buf[j]);
            j = j + 1;
            proof {
                assert(part@ =~= buf@.subrange(o as int, j as int));
            }
        }
        a.push(part);
        o = end;
        i = i + 1;
    }
    a
}

/// The text before the trailing zero bytes of a buffer.
pub fn post_process(string: &[u8]) -> (r: &[u8])
    ensures
        exists|k: int| 0 <= k <= string@.len() && r@ == string@.subrange(0, k) && (forall|j: int|
            k <= j < string@.len() ==> string@[j] == 0u8),
        r@.len() > 0 ==> r@.last() != 0u8,
{
    let mut n: usize = string.len();
    while n > 0 && string[n - 1] == 0
        invariant
            0 <= n <= string@.len(),
            forall|j: int| n <= j < string@.len() ==> string@[j] == 0u8,
        decreases n,
    {
        n = n - 1;
    }
    let r = string.split_at(n).0;
    proof {
        assert(r@ =~= string@.subrange(0, n as int));
    }
    r
}

} // verus!
