//! The tabular format: a header line naming the columns, then one space-separated row
//! per sample, each closed by the sweep's duration.
use vstd::prelude::*;
use vstd::utf8::valid_utf8;
use crate::desc::{Desc, Fields, Writer, cprint, header, columns, fields_columns};
use vstd::string::StringSliceAdditionalSpecFns;
use crate::layout::{
    Leaf, LeafKind, layout_cells, absent_cells, join_cells, cells_view, push_cells, push_absent,
    push_joined, base_layout, tcp_info_layout, bbr_layout, bbr3_layout, base_leaves,
    tcp_info_leaves, bbr_leaves, bbr3_leaves, leaf_width, layout_fits, leaf_text, push_leaf_text,
    absent_text,
};
use crate::record::{
    InetDiagMsgExtra, InetDiagMsg, TcpInfo, BbrInfo, Bbr3Info, ExtraView, extra_wf, parse_spec,
    lemma_parse_wf, is_utf8, INET_DIAG_MSG_LEN, TCP_INFO_LEN, BBR_INFO_LEN, BBR3_INFO_LEN,
};
use crate::text::{dec_digits, push_dec, parse_dec};
use crate::wire::{push_le, le_bytes};
use crate::layout::leaf_value;
use crate::addr::{parse_addr, bytes_eq};
use crate::sink::{Event, SinkError, Collector, Output};

verus! {

/// The cells of an optional block: its columns, or one `_` per column when absent.
pub open spec fn opt_cells(b: Option<Seq<u8>>, l: Seq<Leaf>) -> Seq<Seq<u8>> {
    match b {
        Some(raw) => layout_cells(raw, l, 0),
        None => absent_cells(l.len()),
    }
}

/// The cells of a record: the base, the congestion name, the TCP info, BBR and BBR3.
pub open spec fn extra_cells(e: ExtraView) -> Seq<Seq<u8>> {
    layout_cells(e.base, base_layout(), e.base[0]) + match e.cong {
        Some(c) => seq![c],
        None => absent_cells(1),
    } + opt_cells(e.tcp_info, tcp_info_layout()) + opt_cells(e.bbr, bbr_layout()) + opt_cells(
        e.bbr3,
        bbr3_layout(),
    )
}

/// The number of columns of a record.
pub open spec fn extra_columns() -> nat {
    base_layout().len() + 1 + tcp_info_layout().len() + bbr_layout().len() + bbr3_layout().len()
}

/// The cells of a row before its duration: the time, then the record or `_` for each of
/// its columns.
pub open spec fn row_cells(time: u64, e: Option<ExtraView>) -> Seq<Seq<u8>> {
    seq![dec_digits(time as nat)] + match e {
        Some(x) => extra_cells(x),
        None => absent_cells(extra_columns()),
    }
}

/// The text of a row before its duration.
pub open spec fn row_text(time: u64, e: Option<ExtraView>) -> Seq<u8> {
    join_cells(row_cells(time, e))
}

fn push_opt_block(cells: &mut Vec<Vec<u8>>, raw: Option<&Vec<u8>>, l: &Vec<Leaf>, size: usize)
    requires
        layout_fits(l@, size as nat),
        raw matches Some(r) ==> r@.len() == size,
    ensures
        cells_view(final(cells)@) == cells_view(old(cells)@) + opt_cells(
            match raw {
                Some(r) => Some(r@),
                None => None,
            },
            l@,
        ),
{
    match raw {
        Some(r) => {
            push_cells(cells, r.as_slice(), l, 0);
        },
        None => {
            push_absent(cells, l.len());
        },
    }
}

fn copy_bytes(c: &Vec<u8>) -> (r: Vec<u8>)
    ensures
        r@ == c@,
{
    crate::record::copy_range(c.as_slice(), 0, c.len())
}

/// Appends the cells of a record.
pub fn push_extra_cells(cells: &mut Vec<Vec<u8>>, e: &InetDiagMsgExtra)
    requires
        extra_wf(e@),
    ensures
        cells_view(final(cells)@) == cells_view(old(cells)@) + extra_cells(e@),
{
    let ghost c0 = cells_view(cells@);
    let bl = base_leaves();
    push_cells(cells, e.base.raw.as_slice(), &bl, e.base.raw[0]);
    let ghost c1 = cells_view(cells@);
    match &e.cong {
        Some(c) => {
            let ghost before = cells@;
            let cc = copy_bytes(c);
            cells.push(cc);
            proof {
                assert(cells_view(cells@) =~= cells_view(before) + seq![c@]);
            }
        },
        None => {
            push_absent(cells, 1);
        },
    }
    let ghost c2 = cells_view(cells@);
    let tl = tcp_info_leaves();
    push_opt_block(cells, match &e.tcp_info { Some(t) => Some(&t.raw), None => None }, &tl, TCP_INFO_LEN);
    let ghost c3 = cells_view(cells@);
    let bbl = bbr_leaves();
    push_opt_block(cells, match &e.bbr { Some(b) => Some(&b.raw), None => None }, &bbl, BBR_INFO_LEN);
    let ghost c4 = cells_view(cells@);
    let b3l = bbr3_leaves();
    push_opt_block(cells, match &e.bbr3 { Some(b) => Some(&b.raw), None => None }, &b3l, BBR3_INFO_LEN);
    proof {
        assert(cells_view(cells@) =~= cells_view(old(cells)@) + extra_cells(e@));
    }
}

/// The number of columns of a record.
pub fn extra_len() -> (r: usize)
    ensures
        r == extra_columns(),
{
    proof {
        crate::layout::lemma_layout_lens();
    }
    let a = base_leaves().len();
    let b = tcp_info_leaves().len();
    let c = bbr_leaves().len();
    let d = bbr3_leaves().len();
    a + 1 + b + c + d
}

/// Appends a row without its duration.
pub fn push_row(out: &mut Vec<u8>, time: u64, e: Option<&InetDiagMsgExtra>)
    requires
        e matches Some(x) ==> extra_wf(x@),
    ensures
        final(out)@ == old(out)@ + row_text(
            time,
            match e {
                Some(x) => Some(x@),
                None => None,
            },
        ),
{
    let mut cells: Vec<Vec<u8>> = Vec::new();
    let mut t: Vec<u8> = Vec::new();
    push_dec(&mut t, time);
    cells.push(t);
    proof {
        assert(cells_view(cells@) =~= seq![dec_digits(time as nat)]);
    }
    match e {
        Some(x) => push_extra_cells(&mut cells, x),
        None => {
            let n = extra_len();
            push_absent(&mut cells, n);
        },
    }
    push_joined(out, &cells);
}

/// The fields of columns `0..k` of a block, built last column first onto `acc`,
/// with `inner` the group being built when `in_group`. A column that closes a group
/// starts one; a column that opens a group ends it, under the group's name.
pub open spec fn fields_from(l: Seq<Leaf>, k: nat, acc: Fields, inner: Fields, in_group: bool) -> Fields
    decreases k,
{
    if k == 0 || k > l.len() {
        acc
    } else {
        let leaf = l[k - 1];
        let g1 = leaf.closes || in_group;
        let inner1 = if leaf.closes {
            Fields::End
        } else {
            inner
        };
        let acc2 = if g1 {
            acc
        } else {
            Fields::Field(leaf.name, Box::new(Desc::Atom), Box::new(acc))
        };
        let inner2 = if g1 {
            Fields::Field(leaf.name, Box::new(Desc::Atom), Box::new(inner1))
        } else {
            inner1
        };
        match leaf.opens {
            Some(g) => fields_from(
                l,
                (k - 1) as nat,
                Fields::Field(g, Box::new(Desc::Struct(Box::new(inner2))), Box::new(acc2)),
                Fields::End,
                false,
            ),
            None => fields_from(l, (k - 1) as nat, acc2, inner2, g1),
        }
    }
}

/// The fields of a block: one per column, the columns of each group nested under its
/// name.
pub open spec fn layout_fields(l: Seq<Leaf>) -> Fields {
    fields_from(l, l.len(), Fields::End, Fields::End, false)
}

/// The groups of columns `0..k` nest properly, walking back from `k` with a group
/// open when `in_group`: a group closes only where none is open, and none is open
/// at the start.
pub open spec fn groups_wf(l: Seq<Leaf>, k: nat, in_group: bool) -> bool
    decreases k,
{
    if k == 0 || k > l.len() {
        !in_group
    } else {
        let leaf = l[k - 1];
        !(leaf.closes && in_group) && groups_wf(
            l,
            (k - 1) as nat,
            if leaf.opens is Some {
                false
            } else {
                leaf.closes || in_group
            },
        )
    }
}

proof fn lemma_fields_from_columns(l: Seq<Leaf>, k: nat, acc: Fields, inner: Fields, in_group: bool)
    requires
        k <= l.len(),
        groups_wf(l, k, in_group),
        !in_group ==> fields_columns(inner) == 0,
    ensures
        fields_columns(fields_from(l, k, acc, inner, in_group)) == fields_columns(acc) + (if in_group {
            fields_columns(inner)
        } else {
            0
        }) + k,
    decreases k,
{
    if k > 0 {
        let leaf = l[k - 1];
        let g1 = leaf.closes || in_group;
        let inner1 = if leaf.closes {
            Fields::End
        } else {
            inner
        };
        let acc2 = if g1 {
            acc
        } else {
            Fields::Field(leaf.name, Box::new(Desc::Atom), Box::new(acc))
        };
        let inner2 = if g1 {
            Fields::Field(leaf.name, Box::new(Desc::Atom), Box::new(inner1))
        } else {
            inner1
        };
        assert(columns(Desc::Atom) == 1);
        assert(fields_columns(Fields::End) == 0);
        assert(fields_columns(acc2) == fields_columns(acc) + if g1 { 0nat } else { 1nat });
        assert(fields_columns(inner2) == fields_columns(inner1) + if g1 { 1nat } else { 0nat });
        match leaf.opens {
            Some(g) => {
                let grp = Fields::Field(g, Box::new(Desc::Struct(Box::new(inner2))), Box::new(acc2));
                assert(columns(Desc::Struct(Box::new(inner2))) == fields_columns(inner2));
                assert(fields_columns(grp) == fields_columns(inner2) + fields_columns(acc2));
                lemma_fields_from_columns(
                    l,
                    (k - 1) as nat,
                    Fields::Field(g, Box::new(Desc::Struct(Box::new(inner2))), Box::new(acc2)),
                    Fields::End,
                    false,
                );
            },
            None => {
                lemma_fields_from_columns(l, (k - 1) as nat, acc2, inner2, g1);
            },
        }
    }
}

/// A block whose groups nest properly has one column in its shape per column of its
/// layout, so an absent block writes one `_` per column of its shape.
pub proof fn lemma_layout_columns(l: Seq<Leaf>)
    requires
        groups_wf(l, l.len(), false),
    ensures
        columns(Desc::Struct(Box::new(layout_fields(l)))) == l.len(),
        columns(opt_struct_spec(l)) == l.len(),
        join_cells(opt_cells(None, l)) == absent_text(columns(opt_struct_spec(l))),
{
    lemma_fields_from_columns(l, l.len(), Fields::End, Fields::End, false);
    crate::layout::lemma_absent_text(l.len());
    let st = Desc::Struct(Box::new(layout_fields(l)));
    assert(columns(st) == fields_columns(layout_fields(l)));
    assert(columns(opt_struct_spec(l)) == columns(st));
    assert(opt_cells(None, l) == absent_cells(l.len()));
}

proof fn lemma_plain_range(l: Seq<Leaf>, a: nat, k: nat)
    requires
        a <= k <= l.len(),
        forall|i: int| a <= i < k ==> !(#[trigger] l[i]).closes && l[i].opens is None,
    ensures
        groups_wf(l, k, false) == groups_wf(l, a, false),
    decreases k,
{
    if k > a {
        lemma_plain_range(l, a, (k - 1) as nat);
        assert(!l[k - 1].closes && l[k - 1].opens is None);
    }
}

proof fn lemma_base_nests()
    ensures
        groups_wf(base_layout(), base_layout().len(), false),
{
    reveal(base_layout);
    reveal_with_fuel(groups_wf, 16);
}

proof fn lemma_tcp_info_nests()
    ensures
        groups_wf(tcp_info_layout(), tcp_info_layout().len(), false),
{
    reveal(tcp_info_layout);
    let l = tcp_info_layout();
    assert(groups_wf(l, 8, false)) by {
        reveal_with_fuel(groups_wf, 9);
    }
    assert forall|i: int| 8 <= i < 55 implies !(#[trigger] l[i]).closes && l[i].opens is None by {}
    lemma_plain_range(l, 8, 55);
}

/// The groups of the four blocks nest properly.
pub proof fn lemma_layouts_nest()
    ensures
        groups_wf(base_layout(), base_layout().len(), false),
        groups_wf(tcp_info_layout(), tcp_info_layout().len(), false),
        groups_wf(bbr_layout(), bbr_layout().len(), false),
        groups_wf(bbr3_layout(), bbr3_layout().len(), false),
{
    lemma_base_nests();
    lemma_tcp_info_nests();
    reveal(bbr_layout);
    reveal(bbr3_layout);
    let b = bbr_layout();
    let b3 = bbr3_layout();
    assert forall|i: int| 0 <= i < 4 implies !(#[trigger] b[i]).closes && b[i].opens is None by {}
    assert forall|i: int| 0 <= i < 8 implies !(#[trigger] b3[i]).closes && b3[i].opens is None by {}
    lemma_plain_range(b, 0, 4);
    lemma_plain_range(b3, 0, 8);
}

/// An absent block of the tabular row writes one `_` for each column of its shape.
pub proof fn lemma_absent_blocks()
    ensures
        columns(opt_struct_spec(tcp_info_layout())) == tcp_info_layout().len(),
        columns(opt_struct_spec(bbr_layout())) == bbr_layout().len(),
        columns(opt_struct_spec(bbr3_layout())) == bbr3_layout().len(),
        join_cells(opt_cells(None, tcp_info_layout())) == absent_text(
            columns(opt_struct_spec(tcp_info_layout())),
        ),
        join_cells(opt_cells(None, bbr_layout())) == absent_text(columns(opt_struct_spec(bbr_layout()))),
        join_cells(opt_cells(None, bbr3_layout())) == absent_text(columns(opt_struct_spec(bbr3_layout()))),
{
    lemma_layouts_nest();
    lemma_layout_columns(tcp_info_layout());
    lemma_layout_columns(bbr_layout());
    lemma_layout_columns(bbr3_layout());
}

/// Builds the fields of a block from its columns, nesting each group.
fn leaves_fields(l: &Vec<Leaf>) -> (r: Fields)
    ensures
        r == layout_fields(l@),
{
    let mut acc = Fields::End;
    let mut inner = Fields::End;
    let mut in_group = false;
    let mut k: usize = l.len();
    while k > 0
        invariant
            k <= l@.len(),
            fields_from(l@, k as nat, acc, inner, in_group) == layout_fields(l@),
        decreases k,
    {
        let leaf = l[k - 1];
        if leaf.closes {
            in_group = true;
            inner = Fields::End;
        }
        if in_group {
            inner = Fields::Field(leaf.name, Box::new(Desc::Atom), Box::new(inner));
        } else {
            acc = Fields::Field(leaf.name, Box::new(Desc::Atom), Box::new(acc));
        }
        match leaf.opens {
            Some(g) => {
                let mut group = Fields::End;
                core::mem::swap(&mut group, &mut inner);
                acc = Fields::Field(g, Box::new(Desc::Struct(Box::new(group))), Box::new(acc));
                in_group = false;
            },
            None => {},
        }
        k = k - 1;
    }
    acc
}

fn field(name: &'static str, d: Desc, rest: Fields) -> (r: Fields)
    ensures
        r == Fields::Field(name, Box::new(d), Box::new(rest)),
{
    Fields::Field(name, Box::new(d), Box::new(rest))
}

pub open spec fn opt_struct_spec(l: Seq<Leaf>) -> Desc {
    Desc::Option(Box::new(Desc::Struct(Box::new(layout_fields(l)))))
}

fn opt_struct(l: &Vec<Leaf>) -> (r: Desc)
    ensures
        r == opt_struct_spec(l@),
{
    Desc::Option(Box::new(Desc::Struct(Box::new(leaves_fields(l)))))
}

/// The shape of a record: the base, then the optional congestion name, TCP info, BBR
/// and BBR3 blocks.
pub open spec fn extra_desc_spec() -> Desc {
    Desc::Struct(
        Box::new(
            Fields::Field(
                "base",
                Box::new(Desc::Struct(Box::new(layout_fields(base_layout())))),
                Box::new(
                    Fields::Field(
                        "cong",
                        Box::new(Desc::Option(Box::new(Desc::Atom))),
                        Box::new(
                            Fields::Field(
                                "tcp_info",
                                Box::new(opt_struct_spec(tcp_info_layout())),
                                Box::new(
                                    Fields::Field(
                                        "bbr",
                                        Box::new(opt_struct_spec(bbr_layout())),
                                        Box::new(
                                            Fields::Field(
                                                "bbr3",
                                                Box::new(opt_struct_spec(bbr3_layout())),
                                                Box::new(Fields::End),
                                            ),
                                        ),
                                    ),
                                ),
                            ),
                        ),
                    ),
                ),
            ),
        ),
    )
}

/// The shape of a row: the time, the record flattened into the row, the duration.
pub open spec fn line_desc_spec() -> Desc {
    Desc::Struct(
        Box::new(
            Fields::Field(
                "time",
                Box::new(Desc::Atom),
                Box::new(
                    Fields::Field(
                        "",
                        Box::new(Desc::Option(Box::new(extra_desc_spec()))),
                        Box::new(
                            Fields::Field(
                                "duration",
                                Box::new(Desc::Option(Box::new(Desc::Atom))),
                                Box::new(Fields::End),
                            ),
                        ),
                    ),
                ),
            ),
        ),
    )
}

/// The shape of a record.
pub fn extra_desc() -> (r: Desc)
    ensures
        r == extra_desc_spec(),
{
    let f = field(
        "base",
        Desc::Struct(Box::new(leaves_fields(&base_leaves()))),
        field(
            "cong",
            Desc::Option(Box::new(Desc::Atom)),
            field(
                "tcp_info",
                opt_struct(&tcp_info_leaves()),
                field("bbr", opt_struct(&bbr_leaves()), field("bbr3", opt_struct(&bbr3_leaves()), Fields::End)),
            ),
        ),
    );
    Desc::Struct(Box::new(f))
}

/// The shape of a row.
pub fn line_desc() -> (r: Desc)
    ensures
        r == line_desc_spec(),
{
    Desc::Struct(
        Box::new(
            field(
                "time",
                Desc::Atom,
                field(
                    "",
                    Desc::Option(Box::new(extra_desc())),
                    field("duration", Desc::Option(Box::new(Desc::Atom)), Fields::End),
                ),
            ),
        ),
    )
}

/// The header text of a shape, without the space after its last column name.
pub fn header_of(d: &Desc) -> (r: Vec<u8>)
    ensures
        header(*d, Seq::empty()).len() > 0 ==> r@ == header(*d, Seq::empty()).drop_last(),
        header(*d, Seq::empty()).len() == 0 ==> r@.len() == 0,
{
    let mut w = Writer::new();
    let empty: Vec<u8> = Vec::new();
    cprint(&mut w, empty.as_slice(), d);
    proof {
        assert(w.out@ =~= header(*d, Seq::empty()));
    }
    let mut out = w.out;
    if out.len() > 0 {
        out.pop();
    }
    out
}

/// The tabular header line's text: the dotted path of each column of a row, depth
/// first, separated by single spaces.
pub fn csv_header() -> (r: Vec<u8>)
    ensures
        r@ == header(line_desc_spec(), Seq::empty()).drop_last(),
{
    let d = line_desc();
    proof {
        lemma_line_header_nonempty();
    }
    header_of(&d)
}

proof fn lemma_line_header_nonempty()
    ensures
        header(line_desc_spec(), Seq::empty()).len() > 0,
{
    let d = line_desc_spec();
    match d {
        Desc::Struct(f) => {
            match *f {
                Fields::Field(n, t, rest) => {
                    let h = header(*t, crate::desc::join_name(Seq::empty(), n.spec_bytes()));
                    assert(h.len() > 0);
                    assert(crate::desc::fields_header(*f, Seq::empty()) == h + crate::desc::fields_header(
                        *rest,
                        Seq::empty(),
                    ));
                },
                _ => {},
            }
        },
        _ => {},
    }
}

/// The tabular sink.
pub struct CsvOutput {
    pub writer: Vec<u8>,
    /// The start of the current sweep, in microseconds since the epoch.
    pub time: u64,
    /// Whether a row of this sweep waits for its end.
    pub trailer: bool,
}

impl CsvOutput {
    /// A sink that has written the header line.
    pub fn new() -> (r: Self)
        ensures
            r.time == 0,
            !r.trailer,
            r.writer@ == header(line_desc_spec(), Seq::empty()).drop_last().push(10u8),
    {
        let mut writer = csv_header();
        writer.push(10u8);
        CsvOutput { writer, time: 0, trailer: false }
    }

    /// A sweep starts at `time`; nothing is written until its first sample or its end.
    pub fn start_sweep(&mut self, time: u64)
        ensures
            final(self).time == time,
            !final(self).trailer,
            final(self).writer@ == old(self).writer@,
    {
        self.time = time;
        self.trailer = false;
    }

    /// Writes the row of one sample: the previous row of the sweep is closed with `_`
    /// for its duration, and this row waits for the end of the sweep.
    pub fn sample(&mut self, data: &[u8]) -> (r: Result<(), SinkError>)
        ensures
            match parse_spec(data@) {
                Ok(e) => r is Ok && final(self).trailer && final(self).time == old(self).time
                    && final(self).writer@ == old(self).writer@ + (if old(self).trailer {
                    seq![32u8, 95u8, 10u8]
                } else {
                    Seq::empty()
                }) + row_text(old(self).time, Some(e)),
                Err(_) => r == Err::<(), SinkError>(SinkError::BadRecord) && *final(self) == *old(
                    self,
                ),
            },
    {
        let e = match InetDiagMsgExtra::try_parse(data) {
            Ok(e) => e,
            Err(_) => {
                return Err(SinkError::BadRecord);
            },
        };
        proof {
            lemma_parse_wf(data@);
        }
        let ghost w0 = self.writer@;
        if self.trailer {
            self.writer.push(32u8);
            self.writer.push(95u8);
            self.writer.push(10u8);
        }
        proof {
            assert(self.writer@ =~= w0 + (if old(self).trailer {
                seq![32u8, 95u8, 10u8]
            } else {
                Seq::empty()
            }));
        }
        push_row(&mut self.writer, self.time, Some(&e));
        self.trailer = true;
        Ok(())
    }

    /// Ends the sweep: a sweep without samples gets one row of `_`, and the open row is
    /// closed with the duration.
    pub fn end_sweep(&mut self, duration: u64)
        ensures
            final(self).writer@ == old(self).writer@ + (if old(self).trailer {
                Seq::empty()
            } else {
                row_text(old(self).time, None)
            }) + seq![32u8] + dec_digits(duration as nat) + seq![10u8],
            final(self).time == old(self).time,
            final(self).trailer == old(self).trailer,
    {
        let ghost w0 = self.writer@;
        if !self.trailer {
            push_row(&mut self.writer, self.time, None);
        }
        let ghost w1 = self.writer@;
        self.writer.push(32u8);
        push_dec(&mut self.writer, duration);
        self.writer.push(10u8);
        proof {
            assert(self.writer@ =~= w1 + seq![32u8] + dec_digits(duration as nat) + seq![10u8]);
        }
    }
}

impl Collector for CsvOutput {
    open spec fn start_post(&self, after: &Self, time: u64) -> bool {
        after.time == time && !after.trailer && after.writer@ == self.writer@
    }

    open spec fn out_post(&self, after: &Self, data: Seq<u8>, r: Result<(), SinkError>) -> bool {
        match parse_spec(data) {
            Ok(e) => r is Ok && after.trailer && after.time == self.time && after.writer@
                == self.writer@ + (if self.trailer {
                seq![32u8, 95u8, 10u8]
            } else {
                Seq::empty()
            }) + row_text(self.time, Some(e)),
            Err(_) => r == Err::<(), SinkError>(SinkError::BadRecord) && after.writer@
                == self.writer@ && after.time == self.time && after.trailer == self.trailer,
        }
    }

    open spec fn end_post(&self, after: &Self, duration: u64, r: Result<(), SinkError>) -> bool {
        r is Ok && after.time == self.time && after.trailer == self.trailer && after.writer@
            == self.writer@ + (if self.trailer {
            Seq::empty()
        } else {
            row_text(self.time, None)
        }) + seq![32u8] + dec_digits(duration as nat) + seq![10u8]
    }

    open spec fn pending(&self) -> Seq<u8> {
        self.writer@
    }

    open spec fn drained(&self, after: &Self) -> bool {
        after.writer@ == Seq::<u8>::empty() && after.time == self.time && after.trailer == self.trailer
    }

    fn start(&mut self, time: u64) {
        self.start_sweep(time)
    }

    fn out(&mut self, data: &[u8]) -> (r: Result<(), SinkError>) {
        self.sample(data)
    }

    fn end(&mut self, duration: u64) -> (r: Result<(), SinkError>) {
        self.end_sweep(duration);
        Ok(())
    }

    fn take_output(&mut self) -> (r: Vec<u8>) {
        let mut out: Vec<u8> = Vec::new();
        core::mem::swap(&mut out, &mut self.writer);
        out
    }
}

/// Why a tabular stream could not be read.
#[derive(Clone, Copy, Debug, PartialEq, Eq, Structural)]
pub enum CsvError {
    /// A row that does not read as the columns of the header.
    BadLine,
    /// A row whose BBR3 columns are present without its BBR columns.
    BadRecord,
}

/// One row as read back.
pub struct CsvLine {
    pub time: u64,
    pub data: Option<InetDiagMsgExtra>,
    pub duration: Option<u64>,
}

pub open spec fn opt_extra_view(d: Option<InetDiagMsgExtra>) -> Option<ExtraView> {
    match d {
        Some(e) => Some(e@),
        None => None,
    }
}

/// The cells of a whole row: the row, then the duration or `_`.
pub open spec fn line_cells(time: u64, e: Option<ExtraView>, duration: Option<u64>) -> Seq<Seq<u8>> {
    row_cells(time, e) + seq![
        match duration {
            Some(d) => dec_digits(d as nat),
            None => seq![95u8],
        },
    ]
}

/// The pieces of a text cut at each `sep`: one more piece than there are separators.
pub open spec fn split_on(s: Seq<u8>, sep: u8) -> Seq<Seq<u8>>
    decreases s.len(),
{
    if s.len() == 0 {
        seq![Seq::empty()]
    } else {
        let rest = split_on(s.drop_last(), sep);
        if s.last() == sep {
            rest.push(Seq::empty())
        } else {
            rest.update(rest.len() - 1, rest.last().push(s.last()))
        }
    }
}

/// The cells of a line cut at each space.
pub open spec fn split_spec(s: Seq<u8>) -> Seq<Seq<u8>> {
    split_on(s, 32u8)
}

proof fn lemma_split_nonempty(s: Seq<u8>, sep: u8)
    ensures
        split_on(s, sep).len() > 0,
    decreases s.len(),
{
    if s.len() > 0 {
        lemma_split_nonempty(s.drop_last(), sep);
    }
}

/// A text without the separator is one piece.
pub proof fn lemma_split_plain(y: Seq<u8>, sep: u8)
    requires
        forall|i: int| 0 <= i < y.len() ==> #[trigger] y[i] != sep,
    ensures
        split_on(y, sep) == seq![y],
    decreases y.len(),
{
    if y.len() > 0 {
        let t = y.drop_last();
        assert forall|i: int| 0 <= i < t.len() implies #[trigger] t[i] != sep by {
            assert(t[i] == y[i]);
        }
        lemma_split_plain(t, sep);
        assert(y[y.len() - 1] == y.last());
        assert(t.push(y.last()) =~= y);
        assert(seq![t].update(0, t.push(y.last())) =~= seq![y]);
    } else {
        assert(y =~= Seq::<u8>::empty());
    }
}

/// Cutting at a separator between two texts gives the pieces of each.
pub proof fn lemma_split_join(x: Seq<u8>, y: Seq<u8>, sep: u8)
    ensures
        split_on(x + seq![sep] + y, sep) == split_on(x, sep) + split_on(y, sep),
    decreases y.len(),
{
    let t = x + seq![sep] + y;
    if y.len() == 0 {
        assert(t =~= x.push(sep));
        assert(t.drop_last() =~= x);
        assert(split_on(y, sep) =~= seq![Seq::<u8>::empty()]);
        assert(split_on(x, sep).push(Seq::empty()) =~= split_on(x, sep) + seq![Seq::<u8>::empty()]);
    } else {
        lemma_split_join(x, y.drop_last(), sep);
        lemma_split_nonempty(y.drop_last(), sep);
        assert(t.drop_last() =~= x + seq![sep] + y.drop_last());
        assert(t.last() == y.last());
        let a = split_on(x, sep);
        let b = split_on(y.drop_last(), sep);
        if y.last() == sep {
            assert((a + b).push(Seq::empty()) =~= a + b.push(Seq::empty()));
        } else {
            assert((a + b).update((a + b).len() - 1, (a + b).last().push(y.last())) =~= a + b.update(
                b.len() - 1,
                b.last().push(y.last()),
            ));
        }
    }
}

/// Cuts a text at each `sep`.
pub fn split_at_byte(line: &[u8], sep: u8) -> (r: Vec<Vec<u8>>)
    ensures
        cells_view(r@) == split_on(line@, sep),
{
    let mut out: Vec<Vec<u8>> = Vec::new();
    let mut cur: Vec<u8> = Vec::new();
    let mut i: usize = 0;
    proof {
        assert(cells_view(out@).push(cur@) =~= split_on(line@.subrange(0, 0), sep));
    }
    while i < line.len()
        invariant
            i <= line@.len(),
            cells_view(out@).push(cur@) == split_on(line@.subrange(0, i as int), sep),
        decreases line@.len() - i,
    {
        let b = line[i];
        let ghost prev = split_on(line@.subrange(0, i as int), sep);
        proof {
            assert(line@.subrange(0, i + 1).drop_last() =~= line@.subrange(0, i as int));
            lemma_split_nonempty(line@.subrange(0, i as int), sep);
        }
        if b == sep {
            let mut fresh: Vec<u8> = Vec::new();
            core::mem::swap(&mut fresh, &mut cur);
            out.push(fresh);
            proof {
                assert(cells_view(out@).push(cur@) =~= prev.push(Seq::empty()));
            }
        } else {
            cur.push(b);
            proof {
                assert(cells_view(out@).push(cur@) =~= prev.update(prev.len() - 1, prev.last().push(b)));
            }
        }
        i = i + 1;
    }
    let ghost y = cells_view(out@);
    out.push(cur);
    proof {
        assert(cells_view(out@) =~= y.push(out@.last()@));
        assert(line@.subrange(0, line@.len() as int) =~= line@);
    }
    out
}

/// Cuts a line at each space.
pub fn split_spaces(line: &[u8]) -> (r: Vec<Vec<u8>>)
    ensures
        cells_view(r@) == split_spec(line@),
{
    split_at_byte(line, 32u8)
}

/// Reads a decimal number, accepting only the digits that writing it would give.
pub fn parse_canonical(s: &[u8]) -> (r: Option<u64>)
    ensures
        r matches Some(v) ==> dec_digits(v as nat) == s@,
        forall|v: u64| dec_digits(v as nat) == s@ ==> r == Some(v),
{
    proof {
        assert forall|v: u64| dec_digits(v as nat) == s@ implies crate::text::dec_parse(s@) == Some(v) by {
            crate::text::lemma_dec_round_trip(v);
        }
    }
    match parse_dec(s) {
        Some(v) => {
            let mut check: Vec<u8> = Vec::new();
            push_dec(&mut check, v);
            if bytes_eq(check.as_slice(), s) {
                Some(v)
            } else {
                None
            }
        },
        None => None,
    }
}

/// The byte after a column.
pub open spec fn leaf_end(l: Leaf) -> nat {
    (l.offset + leaf_width(l.kind)) as nat
}

/// Two columns, the first before the second, share no byte, but for the two halves of
/// a packed byte.
pub open spec fn leaves_apart(a: Leaf, b: Leaf) -> bool {
    leaf_end(a) <= b.offset || (a.kind == LeafKind::NibbleLo && b.kind == LeafKind::NibbleHi
        && a.offset == b.offset)
}

/// The columns of a block are laid out one after the other.
pub open spec fn layout_apart(l: Seq<Leaf>) -> bool {
    forall|i: int, j: int| 0 <= i < j < l.len() ==> #[trigger] leaves_apart(l[i], l[j])
}

/// No column of the block is an address.
pub open spec fn no_addr(l: Seq<Leaf>) -> bool {
    forall|i: int| 0 <= i < l.len() ==> (#[trigger] l[i]).kind != LeafKind::Addr
}

/// `r2` keeps every byte of `r1` outside a column, and the other half of a packed byte.
pub open spec fn kept(r1: Seq<u8>, r2: Seq<u8>, l: Leaf) -> bool {
    &&& r1.len() == r2.len()
    &&& forall|i: int| 0 <= i < r1.len() && (i < l.offset || i >= leaf_end(l)) ==> r2[i] == r1[i]
    &&& l.kind == LeafKind::NibbleLo ==> r2[l.offset as int] / 16 == r1[l.offset as int] / 16
    &&& l.kind == LeafKind::NibbleHi ==> r2[l.offset as int] % 16 == r1[l.offset as int] % 16
}

/// Writing a later column keeps the text of an earlier one.
proof fn lemma_leaf_frame(r1: Seq<u8>, r2: Seq<u8>, a: Leaf, b: Leaf, family: u8)
    requires
        kept(r1, r2, b),
        leaves_apart(a, b),
        leaf_end(a) <= r1.len(),
    ensures
        leaf_text(r1, a, family) == leaf_text(r2, a, family),
{
    reveal(leaf_text);
    let o = a.offset as int;
    let e = leaf_end(a) as int;
    if leaf_end(a) <= b.offset {
        assert(r1.subrange(o, e) =~= r2.subrange(o, e));
        assert(r1[o] == r2[o]);
        if a.kind == LeafKind::U16Be {
            assert(r1[o + 1] == r2[o + 1]);
        }
        if a.kind == LeafKind::U32 {
            assert(r1.subrange(o, o + 4) =~= r2.subrange(o, o + 4));
        }
        if a.kind == LeafKind::U64 {
            assert(r1.subrange(o, o + 8) =~= r2.subrange(o, o + 8));
        }
        if a.kind == LeafKind::Addr {
            assert(r1.subrange(o, o + 16) =~= r2.subrange(o, o + 16));
        }
    }
}

/// Column `i` lies before the next, but for the two halves of a packed byte, which
/// the column after them follows.
pub open spec fn step_ok(l: Seq<Leaf>, i: int) -> bool {
    leaf_end(l[i]) <= l[i + 1].offset || (l[i].kind == LeafKind::NibbleLo && l[i + 1].kind
        == LeafKind::NibbleHi && l[i].offset == l[i + 1].offset && (i + 2 < l.len() ==> l[i].offset + 1
        <= l[i + 2].offset))
}

pub open spec fn layout_steps(l: Seq<Leaf>) -> bool {
    forall|i: int| 0 <= i < l.len() - 1 ==> #[trigger] step_ok(l, i)
}

proof fn lemma_offsets_grow(l: Seq<Leaf>, i: int, j: int)
    requires
        layout_steps(l),
        0 <= i <= j < l.len(),
    ensures
        l[i].offset <= l[j].offset,
    decreases j - i,
{
    if i < j {
        lemma_offsets_grow(l, i, j - 1);
        assert(step_ok(l, j - 1));
    }
}

proof fn lemma_steps_apart(l: Seq<Leaf>)
    requires
        layout_steps(l),
    ensures
        layout_apart(l),
{
    assert forall|i: int, j: int| 0 <= i < j < l.len() implies #[trigger] leaves_apart(l[i], l[j]) by {
        assert(step_ok(l, i));
        if j > i + 1 {
            if leaf_end(l[i]) <= l[i + 1].offset {
                lemma_offsets_grow(l, i + 1, j);
            } else {
                lemma_offsets_grow(l, i + 2, j);
            }
        }
    }
}

proof fn lemma_base_steps()
    ensures
        layout_apart(base_layout()),
{
    reveal(base_layout);
    let l = base_layout();
    assert forall|i: int| 0 <= i < l.len() - 1 implies #[trigger] step_ok(l, i) by {}
    lemma_steps_apart(l);
}

proof fn lemma_tcp_info_steps()
    ensures
        layout_apart(tcp_info_layout()),
        no_addr(tcp_info_layout()),
{
    reveal(tcp_info_layout);
    let l = tcp_info_layout();
    assert forall|i: int| 0 <= i < l.len() - 1 implies #[trigger] step_ok(l, i) by {}
    assert forall|i: int| 0 <= i < l.len() implies (#[trigger] l[i]).kind != LeafKind::Addr by {}
    lemma_steps_apart(l);
}

proof fn lemma_bbr_steps()
    ensures
        layout_apart(bbr_layout()),
        no_addr(bbr_layout()),
        layout_apart(bbr3_layout()),
        no_addr(bbr3_layout()),
{
    reveal(bbr_layout);
    reveal(bbr3_layout);
    let l = bbr_layout();
    let m = bbr3_layout();
    assert forall|i: int| 0 <= i < l.len() - 1 implies #[trigger] step_ok(l, i) by {}
    assert forall|i: int| 0 <= i < l.len() implies (#[trigger] l[i]).kind != LeafKind::Addr by {}
    assert forall|i: int| 0 <= i < m.len() - 1 implies #[trigger] step_ok(m, i) by {}
    assert forall|i: int| 0 <= i < m.len() implies (#[trigger] m[i]).kind != LeafKind::Addr by {}
    lemma_steps_apart(l);
    lemma_steps_apart(m);
}

/// The columns of the four blocks are laid out one after the other, and only the base
/// has addresses.
pub proof fn lemma_layouts_apart()
    ensures
        layout_apart(base_layout()),
        layout_apart(tcp_info_layout()),
        layout_apart(bbr_layout()),
        layout_apart(bbr3_layout()),
        no_addr(tcp_info_layout()),
        no_addr(bbr_layout()),
        no_addr(bbr3_layout()),
{
    lemma_base_steps();
    lemma_tcp_info_steps();
    lemma_bbr_steps();
}

/// Writes the value that a cell names into its place in a block.
fn set_leaf(raw: &mut Vec<u8>, leaf: &Leaf, tok: &[u8], family: u8) -> (ok: bool)
    requires
        leaf_end(*leaf) <= old(raw)@.len(),
    ensures
        kept(old(raw)@, final(raw)@, *leaf),
        ok ==> leaf_text(final(raw)@, *leaf, family) == tok@,
        (leaf.kind != LeafKind::Addr || family == crate::addr::AF_INET) && (exists|r0: Seq<u8>|
            leaf_end(*leaf) <= r0.len() && #[trigger] leaf_text(r0, *leaf, family) == tok@) ==> ok,
{
    reveal(leaf_text);
    let o = leaf.offset;
    let n = raw.len();
    match leaf.kind {
        LeafKind::Addr => {
            proof {
                if family == crate::addr::AF_INET && exists|r0: Seq<u8>|
                    leaf_end(*leaf) <= r0.len() && #[trigger] leaf_text(r0, *leaf, family) == tok@ {
                    let r0 = choose|r0: Seq<u8>|
                        leaf_end(*leaf) <= r0.len() && #[trigger] leaf_text(r0, *leaf, family) == tok@;
                    let a = r0.subrange(o as int, o + 16);
                    assert(a.len() == 16 && crate::addr::addr_text(family, a) == tok@);
                }
            }
            match parse_addr(tok, family) {
                Some(a) => {
                    crate::desc::copy(a.as_slice(), raw, o);
                    proof {
                        assert(raw@.subrange(o as int, o + 16) =~= a@);
                    }
                    true
                },
                None => false,
            }
        },
        _ => {
            let ghost fits = exists|r0: Seq<u8>|
                leaf_end(*leaf) <= r0.len() && #[trigger] leaf_text(r0, *leaf, family) == tok@;
            let ghost r0 = if fits {
                choose|r0: Seq<u8>| leaf_end(*leaf) <= r0.len() && #[trigger] leaf_text(r0, *leaf, family) == tok@
            } else {
                Seq::<u8>::empty()
            };
            let ghost v0: nat = if fits { leaf_value(r0, *leaf) } else { 0 };
            proof {
                if fits {
                    let oo = o as int;
                    if leaf.kind == LeafKind::U32 {
                        crate::wire::lemma_le_value_bound(r0.subrange(oo, oo + 4));
                    }
                    if leaf.kind == LeafKind::U64 {
                        crate::wire::lemma_le_value_bound(r0.subrange(oo, oo + 8));
                    }
                    crate::wire::lemma_pow256_values();
                    assert(v0 < 0x1_0000_0000_0000_0000);
                    assert(dec_digits((v0 as u64) as nat) == tok@);
                }
            }
            let v = match parse_canonical(tok) {
                Some(v) => v,
                None => {
                    return false;
                },
            };
            proof {
                if fits {
                    assert(v == v0);
                }
            }
            match leaf.kind {
                LeafKind::U8 => {
                    if v > 0xff {
                        return false;
                    }
                    raw.set(o, v as u8);
                },
                LeafKind::U16Be => {
                    if v > 0xffff {
                        return false;
                    }
                    raw.set(o, (v / 256) as u8);
                    raw.set(o + 1, (v % 256) as u8);
                },
                LeafKind::NibbleLo => {
                    if v > 15 {
                        return false;
                    }
                    let b = raw[o];
                    let x = v as u8;
                    let y = (b & 0xf0u8) | x;
                    assert(y % 16 == x && y / 16 == b / 16) by (bit_vector)
                        requires
                            y == (b & 0xf0u8) | x,
                            x < 16,
                    ;
                    raw.set(o, y);
                },
                LeafKind::NibbleHi => {
                    if v > 15 {
                        return false;
                    }
                    let b = raw[o];
                    let x = v as u8;
                    let y = (b & 0x0fu8) | (x << 4u8);
                    assert(y / 16 == x && y % 16 == b % 16) by (bit_vector)
                        requires
                            y == (b & 0x0fu8) | (x << 4u8),
                            x < 16,
                    ;
                    raw.set(o, y);
                },
                _ => {
                    let w: usize = if leaf.kind == LeafKind::U32 { 4 } else { 8 };
                    if w == 4 && v > 0xffff_ffff {
                        return false;
                    }
                    let mut tmp: Vec<u8> = Vec::new();
                    push_le(&mut tmp, v, w);
                    proof {
                        crate::wire::lemma_le_bytes_len(v as nat, w as nat);
                        crate::wire::lemma_pow256_values();
                        crate::wire::lemma_le_round_trip(v as nat, w as nat);
                        assert(tmp@ =~= le_bytes(v as nat, w as nat));
                    }
                    crate::desc::copy(tmp.as_slice(), raw, o);
                    proof {
                        assert(raw@.subrange(o as int, o + w) =~= tmp@);
                    }
                },
            }
            true
        },
    }
}

/// Reads the cells of a block. The block is handed out only where its cells are
/// exactly the given ones, and it is handed out whenever some block of that size has
/// those cells and none of its columns is an address.
pub fn parse_block(tokens: &Vec<Vec<u8>>, start: usize, l: &Vec<Leaf>, size: usize, family: u8) -> (r:
    Option<Vec<u8>>)
    requires
        layout_fits(l@, size as nat),
        layout_apart(l@),
        start + l@.len() <= tokens@.len(),
    ensures
        r matches Some(raw) ==> raw@.len() == size && layout_cells(raw@, l@, family) == cells_view(
            tokens@.subrange(start as int, start + l@.len()),
        ),
        (no_addr(l@) || family == crate::addr::AF_INET) && (exists|r0: Seq<u8>|
            r0.len() == size && #[trigger] layout_cells(r0, l@, family) == cells_view(
                tokens@.subrange(start as int, start + l@.len()),
            )) ==> r is Some,
{
    let mut raw: Vec<u8> = Vec::new();
    while raw.len() < size
        invariant
            raw@.len() <= size,
        decreases size - raw@.len(),
    {
        raw.push(0u8);
    }
    let ghost sub = cells_view(tokens@.subrange(start as int, start + l@.len()));
    let ghost fits = exists|r0: Seq<u8>| r0.len() == size && #[trigger] layout_cells(r0, l@, family) == sub;
    let ghost r0 = if fits {
        choose|r0: Seq<u8>| r0.len() == size && #[trigger] layout_cells(r0, l@, family) == sub
    } else {
        Seq::<u8>::empty()
    };
    let tl = tokens.len();
    let mut k: usize = 0;
    while k < l.len()
        invariant
            tl == tokens@.len(),
            layout_fits(l@, size as nat),
            layout_apart(l@),
            start + l@.len() <= tokens@.len(),
            raw@.len() == size,
            k <= l@.len(),
            sub == cells_view(tokens@.subrange(start as int, start + l@.len())),
            fits ==> r0.len() == size && layout_cells(r0, l@, family) == sub,
            fits == (exists|q: Seq<u8>| q.len() == size && #[trigger] layout_cells(q, l@, family) == sub),
            forall|j: int| 0 <= j < k ==> leaf_text(raw@, #[trigger] l@[j], family) == tokens@[start + j]@,
        decreases l@.len() - k,
    {
        proof {
            assert(l@[k as int].offset + leaf_width(l@[k as int].kind) <= size);
        }
        let ghost before = raw@;
        let tok = tokens[start + k].as_slice();
        proof {
            assert(fits ==> leaf_end(l@[k as int]) <= r0.len() && leaf_text(r0, l@[k as int], family)
                == tok@) by {
                if fits {
                    assert(layout_cells(r0, l@, family)[k as int] == sub[k as int]);
                    assert(sub[k as int] == tokens@[start + k]@);
                }
            }
            assert(no_addr(l@) ==> l@[k as int].kind != LeafKind::Addr);
            assert((no_addr(l@) || family == crate::addr::AF_INET) ==> (l@[k as int].kind != LeafKind::Addr
                || family == crate::addr::AF_INET));
        }
        if !set_leaf(&mut raw, &l[k], tok, family) {
            return None;
        }
        proof {
            assert forall|j: int| 0 <= j < k + 1 implies leaf_text(raw@, #[trigger] l@[j], family)
                == tokens@[start + j]@ by {
                if j < k {
                    assert(leaves_apart(l@[j], l@[k as int]));
                    assert(leaf_end(l@[j]) <= before.len());
                    assert(l@[j].offset + leaf_width(l@[j].kind) <= size);
                    lemma_leaf_frame(before, raw@, l@[j], l@[k as int], family);
                }
            }
        }
        k = k + 1;
    }
    proof {
        assert(layout_cells(raw@, l@, family) =~= sub);
    }
    Some(raw)
}

/// The sentinel of an absent column.
fn underscore() -> (r: Vec<u8>)
    ensures
        r@ == seq![95u8],
{
    let mut r: Vec<u8> = Vec::new();
    r.push(95u8);
    proof {
        assert(r@ =~= seq![95u8]);
    }
    r
}

/// Whether every one of `n` cells from `start` is the sentinel `_`.
fn all_absent(tokens: &Vec<Vec<u8>>, start: usize, n: usize) -> (r: bool)
    requires
        start + n <= tokens@.len(),
    ensures
        r == (cells_view(tokens@.subrange(start as int, start + n)) == absent_cells(n as nat)),
{
    let tl = tokens.len();
    let us = underscore();
    let mut k: usize = 0;
    while k < n
        invariant
            tl == tokens@.len(),
            us@ == seq![95u8],
            start + n <= tokens@.len(),
            k <= n,
            forall|j: int| 0 <= j < k ==> (#[trigger] tokens@[start + j])@ == seq![95u8],
        decreases n - k,
    {
        if !bytes_eq(tokens[start + k].as_slice(), us.as_slice()) {
            proof {
                assert(cells_view(tokens@.subrange(start as int, start + n))[k as int] != absent_cells(
                    n as nat,
                )[k as int]);
            }
            return false;
        }
        k = k + 1;
    }
    proof {
        let sub = cells_view(tokens@.subrange(start as int, start + n));
        assert forall|i: int| 0 <= i < n implies sub[i] == absent_cells(n as nat)[i] by {
            assert(tokens@[start + i]@ == seq![95u8]);
        }
        assert(sub =~= absent_cells(n as nat));
    }
    true
}

/// Reads an optional block at `start`.
fn parse_opt_block(tokens: &Vec<Vec<u8>>, start: usize, l: &Vec<Leaf>, size: usize) -> (r: Result<
    Option<Vec<u8>>,
    CsvError,
>)
    requires
        layout_fits(l@, size as nat),
        layout_apart(l@),
        l@.len() > 0,
        start + l@.len() <= tokens@.len(),
    ensures
        r matches Ok(b) ==> opt_cells(
            match b {
                Some(x) => Some(x@),
                None => None,
            },
            l@,
        ) == cells_view(tokens@.subrange(start as int, start + l@.len())) && (b matches Some(x)
            ==> x@.len() == size),
        no_addr(l@) && (exists|o: Option<Seq<u8>>|
            (o matches Some(x) ==> x.len() == size) && #[trigger] opt_cells(o, l@) == cells_view(
                tokens@.subrange(start as int, start + l@.len()),
            )) ==> r is Ok,
{
    let ghost sub = cells_view(tokens@.subrange(start as int, start + l@.len()));
    let ghost fits = no_addr(l@) && exists|o: Option<Seq<u8>>|
        (o matches Some(x) ==> x.len() == size) && #[trigger] opt_cells(o, l@) == sub;
    proof {
        if fits {
            let o = choose|o: Option<Seq<u8>>|
                (o matches Some(x) ==> x.len() == size) && #[trigger] opt_cells(o, l@) == sub;
            assert(sub[0] == tokens@[start as int]@);
            match o {
                Some(x) => {
                    reveal(leaf_text);
                    assert(l@[0].kind != LeafKind::Addr);
                    assert(layout_cells(x, l@, 0)[0] == leaf_text(x, l@[0], 0));
                    lemma_dec_not_sentinel(leaf_value(x, l@[0]));
                    assert(tokens@[start as int]@ != seq![95u8]);
                    assert(exists|q: Seq<u8>| q.len() == size && #[trigger] layout_cells(q, l@, 0) == sub);
                },
                None => {
                    assert(absent_cells(l@.len())[0] == seq![95u8]);
                },
            }
        }
    }
    let us = underscore();
    if bytes_eq(tokens[start].as_slice(), us.as_slice()) {
        if all_absent(tokens, start, l.len()) {
            Ok(None)
        } else {
            Err(CsvError::BadLine)
        }
    } else {
        match parse_block(tokens, start, l, size, 0) {
            Some(b) => Ok(Some(b)),
            None => Err(CsvError::BadLine),
        }
    }
}

proof fn lemma_dec_not_sentinel(n: nat)
    ensures
        dec_digits(n) != seq![95u8],
{
    crate::text::lemma_dec_digits_wf(n);
    if dec_digits(n) == seq![95u8] {
        assert(crate::text::is_digit(dec_digits(n)[0]));
    }
}

proof fn lemma_dec_injective(a: nat, b: nat)
    requires
        a < 0x1_0000_0000_0000_0000,
        b < 0x1_0000_0000_0000_0000,
        dec_digits(a) == dec_digits(b),
    ensures
        a == b,
{
    crate::text::lemma_dec_round_trip(a as u64);
    crate::text::lemma_dec_round_trip(b as u64);
}

/// A record that the tabular reader is sure to read back: well formed, with an IPv4
/// base.
pub open spec fn ipv4_record(e: ExtraView) -> bool {
    extra_wf(e) && e.base[0] == crate::addr::AF_INET
}

/// Cells that are those of such a record.
pub open spec fn ipv4_record_cells(c: Seq<Seq<u8>>) -> bool {
    exists|e: ExtraView| ipv4_record(e) && #[trigger] extra_cells(e) == c
}

/// The cells of a record at `start`, part by part.
proof fn lemma_record_parts(e: ExtraView, t: Seq<Vec<u8>>, start: int)
    requires
        ipv4_record(e),
        0 <= start,
        start + extra_columns() <= t.len(),
        extra_cells(e) == cells_view(t.subrange(start, start + extra_columns())),
    ensures
        layout_cells(e.base, base_layout(), 2) == cells_view(t.subrange(start, start + 15)),
        t[start]@ == dec_digits(2),
        cells_view(t.subrange(start + 15, start + 16)) == match e.cong {
            Some(c) => seq![c],
            None => absent_cells(1),
        },
        opt_cells(e.tcp_info, tcp_info_layout()) == cells_view(t.subrange(start + 16, start + 71)),
        opt_cells(e.bbr, bbr_layout()) == cells_view(t.subrange(start + 71, start + 75)),
        opt_cells(e.bbr3, bbr3_layout()) == cells_view(t.subrange(start + 75, start + 83)),
{
    crate::layout::lemma_layout_lens();
    let all = cells_view(t.subrange(start, start + extra_columns()));
    let a = layout_cells(e.base, base_layout(), e.base[0]);
    let b = match e.cong {
        Some(c) => seq![c],
        None => absent_cells(1),
    };
    let c = opt_cells(e.tcp_info, tcp_info_layout());
    let d = opt_cells(e.bbr, bbr_layout());
    let f = opt_cells(e.bbr3, bbr3_layout());
    assert(all == a + b + c + d + f);
    assert(a =~= all.subrange(0, 15));
    assert(cells_view(t.subrange(start, start + 15)) =~= all.subrange(0, 15));
    assert(b =~= all.subrange(15, 16));
    assert(cells_view(t.subrange(start + 15, start + 16)) =~= all.subrange(15, 16));
    assert(c =~= all.subrange(16, 71));
    assert(cells_view(t.subrange(start + 16, start + 71)) =~= all.subrange(16, 71));
    assert(d =~= all.subrange(71, 75));
    assert(cells_view(t.subrange(start + 71, start + 75)) =~= all.subrange(71, 75));
    assert(f =~= all.subrange(75, 83));
    assert(cells_view(t.subrange(start + 75, start + 83)) =~= all.subrange(75, 83));
    reveal(leaf_text);
    reveal(base_layout);
    assert(a[0] == dec_digits(e.base[0] as nat));
    assert(all[0] == t[start]@);
}

/// A block that is there has no `_` in its first cell.
proof fn lemma_present_block(x: Seq<u8>, l: Seq<Leaf>)
    requires
        l.len() > 0,
        no_addr(l),
    ensures
        opt_cells(Some(x), l) != absent_cells(l.len()),
{
    reveal(leaf_text);
    assert(l[0].kind != LeafKind::Addr);
    lemma_dec_not_sentinel(leaf_value(x, l[0]));
    assert(opt_cells(Some(x), l)[0] == dec_digits(leaf_value(x, l[0])));
    assert(absent_cells(l.len())[0] == seq![95u8]);
}

/// Reads the cells of a record starting at `start`.
pub fn parse_extra(tokens: &Vec<Vec<u8>>, start: usize) -> (r: Result<InetDiagMsgExtra, CsvError>)
    requires
        start + extra_columns() <= tokens@.len(),
    ensures
        r matches Ok(e) ==> extra_wf(e@) && extra_cells(e@) == cells_view(
            tokens@.subrange(start as int, start + extra_columns()),
        ),
        ipv4_record_cells(cells_view(tokens@.subrange(start as int, start + extra_columns()))) ==> r is Ok,
{
    let ghost sub = cells_view(tokens@.subrange(start as int, start + extra_columns()));
    let ghost fits = ipv4_record_cells(sub);
    let ghost e0 = if fits {
        choose|e: ExtraView| ipv4_record(e) && #[trigger] extra_cells(e) == sub
    } else {
        crate::record::bare(Seq::empty())
    };
    proof {
        crate::layout::lemma_layout_lens();
        lemma_layouts_apart();
        if fits {
            lemma_record_parts(e0, tokens@, start as int);
        }
    }
    let bl = base_leaves();
    let tl = tcp_info_leaves();
    let bbl = bbr_leaves();
    let b3l = bbr3_leaves();
    let tlen = tokens.len();
    let family = match parse_canonical(tokens[start].as_slice()) {
        Some(v) => {
            if v > 0xff {
                return Err(CsvError::BadLine);
            }
            v as u8
        },
        None => {
            return Err(CsvError::BadLine);
        },
    };
    let base = match parse_block(tokens, start, &bl, INET_DIAG_MSG_LEN, family) {
        Some(b) => b,
        None => {
            return Err(CsvError::BadLine);
        },
    };
    proof {
        assert(layout_cells(base@, base_layout(), family)[0] == tokens@[start as int]@);
        reveal(leaf_text);
        reveal(base_layout);
        assert(dec_digits(base@[0] as nat) == dec_digits(family as nat));
        lemma_dec_injective(base@[0] as nat, family as nat);
    }
    let ci = start + 15;
    let us = underscore();
    let cong = if bytes_eq(tokens[ci].as_slice(), us.as_slice()) {
        None
    } else {
        let c = copy_bytes(&tokens[ci]);
        let mut z = copy_bytes(&tokens[ci]);
        z.push(0u8);
        proof {
            assert(fits ==> valid_utf8(z@) && c@.len() + 5 <= 0xffff) by {
                if fits {
                    assert(cells_view(tokens@.subrange(ci as int, ci + 1))[0] == tokens@[ci as int]@);
                    if e0.cong is None {
                        assert(absent_cells(1)[0] == seq![95u8]);
                    }
                    assert(z@ =~= e0.cong.unwrap().push(0u8));
                }
            }
        }
        if !is_utf8(z.as_slice()) || c.len() > 0xffff - 5 {
            return Err(CsvError::BadLine);
        }
        proof {
            assert(z@ =~= c@.push(0u8));
        }
        Some(c)
    };
    let tcp = parse_opt_block(tokens, start + 16, &tl, TCP_INFO_LEN)?;
    let bbr = parse_opt_block(tokens, start + 71, &bbl, BBR_INFO_LEN)?;
    let bbr3 = parse_opt_block(tokens, start + 75, &b3l, BBR3_INFO_LEN)?;
    proof {
        assert(fits ==> !(bbr3 is Some && bbr is None)) by {
            if fits && bbr3 is Some && bbr is None {
                let b3 = bbr3.unwrap()@;
                if e0.bbr3 is None {
                    lemma_present_block(b3, bbr3_layout());
                }
                lemma_present_block(e0.bbr.unwrap(), bbr_layout());
            }
        }
    }
    if bbr3.is_some() && bbr.is_none() {
        return Err(CsvError::BadRecord);
    }
    let e = InetDiagMsgExtra {
        base: InetDiagMsg { raw: base },
        cong,
        tcp_info: match tcp {
            Some(t) => Some(TcpInfo { raw: t }),
            None => None,
        },
        bbr: match bbr {
            Some(b) => Some(BbrInfo { raw: b }),
            None => None,
        },
        bbr3: match bbr3 {
            Some(b) => Some(Bbr3Info { raw: b }),
            None => None,
        },
    };
    proof {
        let t = tokens@;
        assert(cells_view(t.subrange(start as int, start + extra_columns())) =~= cells_view(
            t.subrange(start as int, start + 15),
        ) + cells_view(t.subrange(start + 15, start + 16)) + cells_view(
            t.subrange(start + 16, start + 71),
        ) + cells_view(t.subrange(start + 71, start + 75)) + cells_view(
            t.subrange(start + 75, start + 83),
        ));
        match e@.cong {
            Some(c) => {
                assert(cells_view(t.subrange(start + 15, start + 16)) =~= seq![c]);
            },
            None => {
                assert(cells_view(t.subrange(start + 15, start + 16)) =~= absent_cells(1));
            },
        }
        assert(extra_cells(e@) =~= cells_view(t.subrange(start as int, start + extra_columns())));
    }
    Ok(e)
}

/// Reads one row's cells.
pub fn parse_row(tokens: &Vec<Vec<u8>>) -> (r: Result<CsvLine, CsvError>)
    ensures
        r matches Ok(l) ==> (l.data matches Some(e) ==> extra_wf(e@)) && line_cells(
            l.time,
            opt_extra_view(l.data),
            l.duration,
        ) == cells_view(tokens@),
        row_ok_cells(cells_view(tokens@)) ==> r is Ok,
{
    let n = extra_len();
    proof {
        crate::layout::lemma_layout_lens();
    }
    let ghost fits = row_ok_cells(cells_view(tokens@));
    let ghost w: (u64, Option<ExtraView>, Option<u64>) = if fits {
        choose|p: (u64, Option<ExtraView>, Option<u64>)|
            (p.1 matches Some(x) ==> ipv4_record(x)) && #[trigger] line_cells(p.0, p.1, p.2) == cells_view(tokens@)
    } else {
        (0, None, None)
    };
    proof {
        if fits {
            lemma_row_facts(cells_view(tokens@), w.0, w.1, w.2);
            assert(dec_digits(w.0 as nat) == tokens@[0]@);
            assert(cells_view(tokens@.subrange(1, 1 + n as int)) =~= cells_view(tokens@).subrange(
                1,
                1 + n as int,
            ));
            assert(cells_view(tokens@).subrange(1, 1 + n as int)[0] == tokens@[1]@);
            match w.1 {
                None => {
                    assert(absent_cells(n as nat)[0] == seq![95u8]);
                    assert(tokens@[1]@ == seq![95u8]);
                },
                Some(x) => {
                    assert(tokens@[1]@ != seq![95u8]);
                    assert(ipv4_record_cells(cells_view(tokens@.subrange(1, 1 + n as int))));
                },
            }
            match w.2 {
                Some(x) => {
                    assert(dec_digits(x as nat) == tokens@[n + 1]@);
                },
                None => {},
            }
        }
    }
    if tokens.len() != n + 2 {
        return Err(CsvError::BadLine);
    }
    let time = match parse_canonical(tokens[0].as_slice()) {
        Some(t) => t,
        None => {
            return Err(CsvError::BadLine);
        },
    };
    let us = underscore();
    let data = if bytes_eq(tokens[1].as_slice(), us.as_slice()) {
        if !all_absent(tokens, 1, n) {
            return Err(CsvError::BadLine);
        }
        None
    } else {
        Some(parse_extra(tokens, 1)?)
    };
    let duration = if bytes_eq(tokens[n + 1].as_slice(), us.as_slice()) {
        None
    } else {
        match parse_canonical(tokens[n + 1].as_slice()) {
            Some(d) => Some(d),
            None => {
                return Err(CsvError::BadLine);
            },
        }
    };
    let line = CsvLine { time, data, duration };
    proof {
        let t = tokens@;
        assert(cells_view(t) =~= seq![t[0]@] + cells_view(t.subrange(1, 1 + n as int)) + seq![
            t[n + 1]@,
        ]);
        assert(line_cells(line.time, opt_extra_view(line.data), line.duration) =~= cells_view(t));
    }
    Ok(line)
}

/// A row that the tabular reader is sure to read: its cells are those of a time, no
/// record or an IPv4 record, and a duration or none.
pub open spec fn row_ok_cells(t: Seq<Seq<u8>>) -> bool {
    exists|p: (u64, Option<ExtraView>, Option<u64>)|
        (p.1 matches Some(x) ==> ipv4_record(x)) && #[trigger] line_cells(p.0, p.1, p.2) == t
}

proof fn lemma_row_facts(t: Seq<Seq<u8>>, time: u64, e: Option<ExtraView>, d: Option<u64>)
    requires
        line_cells(time, e, d) == t,
        e matches Some(x) ==> ipv4_record(x),
    ensures
        t.len() == extra_columns() + 2,
        t[0] == dec_digits(time as nat),
        t.subrange(1, 1 + extra_columns() as int) == match e {
            Some(x) => extra_cells(x),
            None => absent_cells(extra_columns()),
        },
        e is Some ==> t[1] != seq![95u8],
        t[1 + extra_columns() as int] == match d {
            Some(x) => dec_digits(x as nat),
            None => seq![95u8],
        },
{
    crate::layout::lemma_layout_lens();
    let mid = match e {
        Some(x) => extra_cells(x),
        None => absent_cells(extra_columns()),
    };
    match e {
        Some(x) => {
            assert(extra_cells(x).len() == extra_columns());
            reveal(leaf_text);
            reveal(base_layout);
            assert(extra_cells(x)[0] == dec_digits(x.base[0] as nat));
            lemma_dec_not_sentinel(x.base[0] as nat);
        },
        None => {},
    }
    assert(t.subrange(1, 1 + extra_columns() as int) =~= mid);
    assert(t[1] == mid[0]);
}

/// Whether a sweep is still open after a row: a duration closes it, a new time opens
/// one.
pub open spec fn open_after(last: Option<u64>, open: bool, time: u64, duration: Option<u64>) -> bool {
    duration is None && (open || last != Some(time))
}

/// The events of one row, given the time of the rows before it and whether a sweep is
/// open: a new time ends an open sweep (its duration is not in the stream, so it ends
/// with 0) and starts a sweep, a record is a sample, a duration ends the sweep.
pub open spec fn line_events(
    last: Option<u64>,
    open: bool,
    time: u64,
    e: Option<ExtraView>,
    duration: Option<u64>,
) -> Seq<crate::sink::SweepEvent> {
    (if last != Some(time) && open {
        seq![crate::sink::SweepEvent::End(0)]
    } else {
        Seq::empty()
    }) + (if last == Some(time) {
        Seq::empty()
    } else {
        seq![crate::sink::SweepEvent::Start(time)]
    }) + match e {
        Some(x) => seq![crate::sink::SweepEvent::Sample(crate::record::encode_spec(x))],
        None => Seq::empty(),
    } + match duration {
        Some(d) => seq![crate::sink::SweepEvent::End(d)],
        None => Seq::empty(),
    }
}

/// Appends the events of one row.
pub fn push_line_events(out: &mut Vec<Event>, last: Option<u64>, open: bool, line: &CsvLine)
    requires
        line.data matches Some(e) ==> extra_wf(e@),
    ensures
        crate::sink::events_view(final(out)@) == crate::sink::events_view(old(out)@) + line_events(
            last,
            open,
            line.time,
            opt_extra_view(line.data),
            line.duration,
        ),
{
    let ghost v0 = crate::sink::events_view(out@);
    let new_time = match last {
        Some(t) => t != line.time,
        None => true,
    };
    if new_time && open {
        out.push(Event::End(0));
    }
    if new_time {
        out.push(Event::Start(line.time));
    }
    let ghost v1 = crate::sink::events_view(out@);
    match &line.data {
        Some(e) => {
            out.push(Event::Sample(e.to_vec()));
        },
        None => {},
    }
    let ghost v2 = crate::sink::events_view(out@);
    match line.duration {
        Some(d) => {
            out.push(Event::End(d));
        },
        None => {},
    }
    proof {
        assert(crate::sink::events_view(out@) =~= crate::sink::events_view(old(out)@) + line_events(
            last,
            open,
            line.time,
            opt_extra_view(line.data),
            line.duration,
        ));
    }
}

proof fn lemma_line_events_parse(
    last: Option<u64>,
    open: bool,
    time: u64,
    e: Option<ExtraView>,
    duration: Option<u64>,
)
    requires
        e matches Some(x) ==> extra_wf(x),
    ensures
        forall|j: int|
            0 <= j < line_events(last, open, time, e, duration).len() ==> (#[trigger] line_events(
                last,
                open,
                time,
                e,
                duration,
            )[j] matches crate::sink::SweepEvent::Sample(s) ==> parse_spec(s) is Ok),
{
    let a: Seq<crate::sink::SweepEvent> = (if last != Some(time) && open {
        seq![crate::sink::SweepEvent::End(0)]
    } else {
        Seq::empty()
    }) + (if last == Some(time) {
        Seq::empty()
    } else {
        seq![crate::sink::SweepEvent::Start(time)]
    });
    let b: Seq<crate::sink::SweepEvent> = match e {
        Some(x) => seq![crate::sink::SweepEvent::Sample(crate::record::encode_spec(x))],
        None => Seq::empty(),
    };
    let c: Seq<crate::sink::SweepEvent> = match duration {
        Some(d) => seq![crate::sink::SweepEvent::End(d)],
        None => Seq::empty(),
    };
    let le = line_events(last, open, time, e, duration);
    assert(le == a + b + c);
    assert forall|j: int| 0 <= j < a.len() implies !(#[trigger] a[j] is Sample) by {}
    match e {
        Some(x) => {
            crate::record::lemma_extra_round_trip(x);
        },
        None => {},
    }
    assert forall|j: int| 0 <= j < le.len() implies (#[trigger] le[j] matches crate::sink::SweepEvent::Sample(s)
        ==> parse_spec(s) is Ok) by {
        if j < a.len() {
            assert(le[j] == a[j]);
        } else if j < a.len() + b.len() {
            assert(le[j] == b[j - a.len()]);
        } else {
            assert(le[j] == c[j - a.len() - b.len()]);
        }
    }
}

/// The index of the last cell equal to `name`.
pub open spec fn last_index(h: Seq<Seq<u8>>, name: Seq<u8>) -> Option<nat>
    decreases h.len(),
{
    if h.len() == 0 {
        None
    } else if h.last() == name {
        Some((h.len() - 1) as nat)
    } else {
        last_index(h.drop_last(), name)
    }
}

/// For each expected column name, where the observed header has it.
pub fn build_reorder(expected: &Vec<Vec<u8>>, observed: &Vec<Vec<u8>>) -> (r: Vec<Option<usize>>)
    ensures
        r@.len() == expected@.len(),
        forall|k: int|
            0 <= k < r@.len() ==> (match #[trigger] r@[k] {
                Some(j) => Some(j as nat),
                None => None,
            }) == last_index(cells_view(observed@), expected@[k]@),
{
    let mut r: Vec<Option<usize>> = Vec::new();
    let mut k: usize = 0;
    while k < expected.len()
        invariant
            k <= expected@.len(),
            r@.len() == k,
            forall|i: int|
                0 <= i < k ==> (match #[trigger] r@[i] {
                    Some(j) => Some(j as nat),
                    None => None,
                }) == last_index(cells_view(observed@), expected@[i]@),
        decreases expected@.len() - k,
    {
        let name = expected[k].as_slice();
        let mut found: Option<usize> = None;
        let mut j: usize = 0;
        while j < observed.len()
            invariant
                j <= observed@.len(),
                name@ == expected@[k as int]@,
                (match found {
                    Some(x) => Some(x as nat),
                    None => None,
                }) == last_index(cells_view(observed@.subrange(0, j as int)), name@),
            decreases observed@.len() - j,
        {
            if bytes_eq(observed[j].as_slice(), name) {
                found = Some(j);
            }
            proof {
                let h = cells_view(observed@.subrange(0, j + 1));
                assert(h.drop_last() =~= cells_view(observed@.subrange(0, j as int)));
                assert(h.last() == observed@[j as int]@);
            }
            j = j + 1;
        }
        proof {
            assert(observed@.subrange(0, observed@.len() as int) =~= observed@);
        }
        r.push(found);
        k = k + 1;
    }
    r
}

/// The cells of a row in the expected column order: `_` where the header has no such
/// column or the row is too short.
pub fn project(reorder: &Vec<Option<usize>>, tokens: &Vec<Vec<u8>>) -> (r: Vec<Vec<u8>>)
    ensures
        r@.len() == reorder@.len(),
        forall|k: int|
            0 <= k < r@.len() ==> (#[trigger] r@[k])@ == match reorder@[k] {
                Some(j) => if j < tokens@.len() {
                    tokens@[j as int]@
                } else {
                    seq![95u8]
                },
                None => seq![95u8],
            },
{
    let mut r: Vec<Vec<u8>> = Vec::new();
    let mut k: usize = 0;
    while k < reorder.len()
        invariant
            k <= reorder@.len(),
            r@.len() == k,
            forall|i: int|
                0 <= i < k ==> (#[trigger] r@[i])@ == match reorder@[i] {
                    Some(j) => if j < tokens@.len() {
                        tokens@[j as int]@
                    } else {
                        seq![95u8]
                    },
                    None => seq![95u8],
                },
        decreases reorder@.len() - k,
    {
        let c = match reorder[k] {
            Some(j) => if j < tokens.len() {
                copy_bytes(&tokens[j])
            } else {
                underscore()
            },
            None => underscore(),
        };
        r.push(c);
        k = k + 1;
    }
    r
}

/// The cells of a row in this format's column order, taken by name from named cells:
/// `_` for a column that no name gives.
pub fn row_by_name(expected: &Vec<Vec<u8>>, names: &Vec<Vec<u8>>, texts: &Vec<Vec<u8>>) -> (r: Vec<
    Vec<u8>,
>)
    ensures
        r@.len() == expected@.len(),
        forall|k: int|
            0 <= k < r@.len() ==> (#[trigger] r@[k])@ == match last_index(cells_view(names@), expected@[k]@) {
                Some(j) => if j < texts@.len() {
                    texts@[j as int]@
                } else {
                    seq![95u8]
                },
                None => seq![95u8],
            },
{
    let m = build_reorder(expected, names);
    let r = project(&m, texts);
    proof {
        assert forall|k: int| 0 <= k < r@.len() implies (#[trigger] r@[k])@ == match last_index(
            cells_view(names@),
            expected@[k]@,
        ) {
            Some(j) => if j < texts@.len() {
                texts@[j as int]@
            } else {
                seq![95u8]
            },
            None => seq![95u8],
        } by {
            assert(match m@[k] {
                Some(j) => Some(j as nat),
                None => None,
            } == last_index(cells_view(names@), expected@[k]@));
        }
    }
    r
}

/// Whether `s` begins with `p`.
pub fn starts_with(s: &[u8], p: &[u8]) -> (r: bool)
    ensures
        r == (p@.len() <= s@.len() && s@.subrange(0, p@.len() as int) == p@),
{
    if p.len() > s.len() {
        return false;
    }
    let head = vstd::slice::slice_subrange(s, 0, p.len());
    bytes_eq(head, p)
}

/// The lines of a text: the pieces between newlines, with a last line that has no
/// newline kept.
pub open spec fn lines_of(s: Seq<u8>) -> Seq<Seq<u8>> {
    let p = split_on(s, 10u8);
    if p.last().len() == 0 {
        p.drop_last()
    } else {
        p
    }
}

/// Cuts a text into lines at each newline; a last line without newline is kept.
pub fn split_lines(input: &[u8]) -> (r: Vec<Vec<u8>>)
    ensures
        cells_view(r@) == lines_of(input@),
{
    let mut p = split_at_byte(input, 10u8);
    proof {
        lemma_split_nonempty(input@, 10u8);
    }
    let n = p.len();
    if p[n - 1].len() == 0 {
        let ghost before = p@;
        p.pop();
        proof {
            assert(cells_view(p@) =~= cells_view(before).drop_last());
        }
    }
    p
}

/// The cells of a row in the expected column order: as they stand when there is no
/// reordering, else each taken from where the header had its column, or `_`.
pub open spec fn row_tokens(reorder: Option<Seq<Option<usize>>>, t: Seq<Seq<u8>>) -> Seq<Seq<u8>> {
    match reorder {
        None => t,
        Some(m) => Seq::new(
            m.len(),
            |k: int|
                match m[k] {
                    Some(j) => if j < t.len() {
                        t[j as int]
                    } else {
                        seq![95u8]
                    },
                    None => seq![95u8],
                },
        ),
    }
}

pub open spec fn reorder_view(m: Option<Vec<Option<usize>>>) -> Option<Seq<Option<usize>>> {
    match m {
        Some(v) => Some(v@),
        None => None,
    }
}

/// A line that the reader skips: empty, or a comment.
pub open spec fn skipped(line: Seq<u8>) -> bool {
    line.len() == 0 || line[0] == 35u8
}

/// A tabular reader between lines.
pub struct CsvReader {
    /// This format's header line.
    pub header_line: Vec<u8>,
    /// Its column names.
    pub expected: Vec<Vec<u8>>,
    pub have_header: bool,
    /// Where each expected column stands in the stream's header, when the stream's
    /// header is not this format's.
    pub reorder: Option<Vec<Option<usize>>>,
    /// The time of the last row.
    pub last: Option<u64>,
    /// Whether a sweep was started and not yet ended.
    pub open: bool,
}

/// A row line read in state `s0`: its cells, in the expected order, are the cells of
/// some time, record and duration, and it gives their events.
pub open spec fn row_rel(s0: CsvReader, line: Seq<u8>, s1: CsvReader, evs: Seq<crate::sink::SweepEvent>) -> bool {
    exists|time: u64, e: Option<ExtraView>, d: Option<u64>|
        #![trigger line_events(s0.last, s0.open, time, e, d)]
        line_cells(time, e, d) == row_tokens(reorder_view(s0.reorder), split_spec(line)) && (e matches Some(
            x,
        ) ==> extra_wf(x)) && evs == line_events(s0.last, s0.open, time, e, d) && s1.last == Some(time)
            && s1.open == open_after(s0.last, s0.open, time, d)
}

/// The header line read in state `s0`: this format's header (as a prefix) keeps the
/// column order, any other header maps each expected column to where it stands.
pub open spec fn header_rel(s0: CsvReader, line: Seq<u8>, s1: CsvReader) -> bool {
    match reorder_view(s1.reorder) {
        None => s0.header_line@.len() <= line.len() && line.subrange(0, s0.header_line@.len() as int)
            == s0.header_line@,
        Some(m) => m.len() == s0.expected@.len() && forall|k: int|
            0 <= k < m.len() ==> (match #[trigger] m[k] {
                Some(j) => Some(j as nat),
                None => None,
            }) == last_index(split_spec(line), s0.expected@[k]@),
    }
}

/// What reading one line does: empty and comment lines give nothing, the first other
/// line is the header, and each later line is a row.
pub open spec fn feed_rel(
    s0: CsvReader,
    line: Seq<u8>,
    s1: CsvReader,
    r: Result<Seq<crate::sink::SweepEvent>, CsvError>,
) -> bool {
    &&& s1.header_line == s0.header_line
    &&& s1.expected == s0.expected
    &&& if skipped(line) {
        r == Ok::<Seq<crate::sink::SweepEvent>, CsvError>(Seq::empty()) && s1.have_header
            == s0.have_header && s1.last == s0.last && s1.open == s0.open && reorder_view(s1.reorder)
            == reorder_view(s0.reorder)
    } else if !s0.have_header {
        r == Ok::<Seq<crate::sink::SweepEvent>, CsvError>(Seq::empty()) && s1.have_header && s1.last
            == s0.last && s1.open == s0.open && header_rel(s0, line, s1)
    } else {
        s1.have_header && reorder_view(s1.reorder) == reorder_view(s0.reorder) && match r {
            Ok(evs) => row_rel(s0, line, s1, evs),
            Err(_) => s1.last == s0.last && s1.open == s0.open,
        }
    }
}

/// A line that reading in state `s0` is sure to accept: an empty or comment line, the
/// header, or a row whose cells, in the expected order, are those of a time, no record
/// or an IPv4 record, and a duration or none.
pub open spec fn feed_ok(s0: CsvReader, line: Seq<u8>) -> bool {
    skipped(line) || !s0.have_header || row_ok_cells(
        row_tokens(reorder_view(s0.reorder), split_spec(line)),
    )
}

/// Lines that reading from state `s` is sure to accept, each in the state the lines
/// before it leave.
pub open spec fn run_ok(lines: Seq<Seq<u8>>, s: CsvReader) -> bool
    decreases lines.len(),
{
    lines.len() == 0 || (feed_ok(s, lines[0]) && forall|s1: CsvReader, e: Seq<crate::sink::SweepEvent>|
        #[trigger] feed_rel(s, lines[0], s1, Ok::<Seq<crate::sink::SweepEvent>, CsvError>(e)) ==> run_ok(
            lines.drop_first(),
            s1,
        ))
}

pub open spec fn result_view(r: Result<Vec<Event>, CsvError>) -> Result<Seq<crate::sink::SweepEvent>, CsvError> {
    match r {
        Ok(v) => Ok(crate::sink::events_view(v@)),
        Err(x) => Err(x),
    }
}

/// A reader as it starts: before the header, with this format's header line.
pub open spec fn reader_init(s: CsvReader) -> bool {
    &&& !s.have_header && s.reorder is None && s.last is None && !s.open
    &&& s.header_line@ == header(line_desc_spec(), Seq::empty()).drop_last()
    &&& cells_view(s.expected@) == split_spec(s.header_line@)
}

/// Reading `lines` in order from state `s0` ends in state `s1` and gives `evs`.
pub open spec fn csv_run(
    lines: Seq<Seq<u8>>,
    s0: CsvReader,
    s1: CsvReader,
    evs: Seq<crate::sink::SweepEvent>,
) -> bool
    decreases lines.len(),
{
    if lines.len() == 0 {
        s1 == s0 && evs.len() == 0
    } else {
        exists|sm: CsvReader, e1: Seq<crate::sink::SweepEvent>|
            #![trigger feed_rel(sm, lines.last(), s1, Ok::<Seq<crate::sink::SweepEvent>, CsvError>(e1))]
            e1.len() <= evs.len() && csv_run(
                lines.drop_last(),
                s0,
                sm,
                evs.subrange(0, evs.len() - e1.len()),
            ) && feed_rel(sm, lines.last(), s1, Ok::<Seq<crate::sink::SweepEvent>, CsvError>(e1))
                && evs.subrange(evs.len() - e1.len(), evs.len() as int) == e1
    }
}

impl CsvReader {
    pub fn new() -> (r: Self)
        ensures
            reader_init(r),
    {
        let header_line = csv_header();
        let expected = split_spaces(header_line.as_slice());
        CsvReader { header_line, expected, have_header: false, reorder: None, last: None, open: false }
    }

    /// Reads one line, as `feed_rel` says.
    pub fn feed_line(&mut self, line: &[u8]) -> (r: Result<Vec<Event>, CsvError>)
        requires
            cells_view(old(self).expected@) == split_spec(old(self).header_line@),
        ensures
            feed_rel(*old(self), line@, *final(self), result_view(r)),
            feed_ok(*old(self), line@) ==> r is Ok,
    {
        if line.len() == 0 || line[0] == 35u8 {
            let r: Vec<Event> = Vec::new();
            proof {
                assert(crate::sink::events_view(r@) =~= Seq::empty());
            }
            return Ok(r);
        }
        if !self.have_header {
            self.have_header = true;
            if starts_with(line, self.header_line.as_slice()) {
                self.reorder = None;
            } else {
                let observed = split_spaces(line);
                self.reorder = Some(build_reorder(&self.expected, &observed));
            }
            let r: Vec<Event> = Vec::new();
            proof {
                assert(crate::sink::events_view(r@) =~= Seq::empty());
            }
            return Ok(r);
        }
        let tokens = split_spaces(line);
        let row = match &self.reorder {
            Some(m) => {
                let p = project(m, &tokens);
                proof {
                    assert(cells_view(p@) =~= row_tokens(reorder_view(self.reorder), split_spec(line@)));
                }
                p
            },
            None => tokens,
        };
        let parsed = parse_row(&row)?;
        let mut out: Vec<Event> = Vec::new();
        push_line_events(&mut out, self.last, self.open, &parsed);
        let ghost e = opt_extra_view(parsed.data);
        proof {
            assert(crate::sink::events_view(out@) =~= line_events(
                old(self).last,
                old(self).open,
                parsed.time,
                e,
                parsed.duration,
            ));
        }
        self.open = parsed.duration.is_none() && (self.open || match self.last {
            Some(t) => t != parsed.time,
            None => true,
        });
        self.last = Some(parsed.time);
        proof {
            assert(line_events(old(self).last, old(self).open, parsed.time, e, parsed.duration).len() >= 0);
        }
        Ok(out)
    }
}

/// The events of a tabular stream: those of reading its lines in order from a fresh
/// reader.
pub open spec fn csv_reads(input: Seq<u8>, evs: Seq<crate::sink::SweepEvent>) -> bool {
    exists|s0: CsvReader, s1: CsvReader|
        reader_init(s0) && #[trigger] csv_run(lines_of(input), s0, s1, evs)
}

/// Reads a tabular stream into sweep events: its lines, in order, each read by
/// `CsvReader::feed_line` from a fresh reader.
pub fn read_csv(input: &[u8]) -> (r: Result<Vec<Event>, CsvError>)
    ensures
        r matches Ok(evs) ==> csv_reads(input@, crate::sink::events_view(evs@)),
        (forall|s0: CsvReader| reader_init(s0) ==> #[trigger] run_ok(lines_of(input@), s0)) ==> r is Ok,
{
    let ghost fine = forall|s0: CsvReader| reader_init(s0) ==> #[trigger] run_ok(lines_of(input@), s0);
    let lines = split_lines(input);
    let mut reader = CsvReader::new();
    let ghost s0 = reader;
    let mut out: Vec<Event> = Vec::new();
    let mut k: usize = 0;
    proof {
        assert(cells_view(lines@).subrange(0, 0) =~= Seq::<Seq<u8>>::empty());
        assert(crate::sink::events_view(out@) =~= Seq::<crate::sink::SweepEvent>::empty());
        assert(cells_view(lines@).subrange(0, lines@.len() as int) =~= cells_view(lines@));
        if fine {
            assert(run_ok(lines_of(input@), s0));
        }
    }
    while k < lines.len()
        invariant
            k <= lines@.len(),
            reader_init(s0),
            cells_view(reader.expected@) == split_spec(reader.header_line@),
            csv_run(cells_view(lines@).subrange(0, k as int), s0, reader, crate::sink::events_view(out@)),
            fine ==> run_ok(cells_view(lines@).subrange(k as int, lines@.len() as int), reader),
            fine == (forall|s0: CsvReader| reader_init(s0) ==> #[trigger] run_ok(lines_of(input@), s0)),
        decreases lines@.len() - k,
    {
        let line = lines[k].as_slice();
        let ghost sm = reader;
        proof {
            let rest = cells_view(lines@).subrange(k as int, lines@.len() as int);
            assert(rest[0] == line@);
            if fine {
                assert(run_ok(rest, sm));
                assert(feed_ok(sm, line@));
            }
        }
        let ghost before = crate::sink::events_view(out@);
        let mut evs = match reader.feed_line(line) {
            Ok(v) => v,
            Err(x) => {
                return Err(x);
            },
        };
        let ghost e1 = crate::sink::events_view(evs@);
        out.append(&mut evs);
        proof {
            let ls = cells_view(lines@).subrange(0, k + 1);
            let v = crate::sink::events_view(out@);
            assert(ls.drop_last() =~= cells_view(lines@).subrange(0, k as int));
            assert(ls.last() == line@);
            assert(v =~= before + e1);
            assert(v.subrange(0, v.len() - e1.len()) =~= before);
            assert(v.subrange(v.len() - e1.len(), v.len() as int) =~= e1);
            assert(feed_rel(sm, ls.last(), reader, Ok::<Seq<crate::sink::SweepEvent>, CsvError>(e1)));
            assert(csv_run(ls, s0, reader, v));
            if fine {
                let rest = cells_view(lines@).subrange(k as int, lines@.len() as int);
                assert(rest.drop_first() =~= cells_view(lines@).subrange(k + 1, lines@.len() as int));
                assert(feed_rel(sm, rest[0], reader, Ok::<Seq<crate::sink::SweepEvent>, CsvError>(e1)));
            }
        }
        k = k + 1;
    }
    proof {
        assert(cells_view(lines@).subrange(0, lines@.len() as int) =~= cells_view(lines@));
        assert(reader_init(s0) && csv_run(lines_of(input@), s0, reader, crate::sink::events_view(out@)));
        assert(csv_reads(input@, crate::sink::events_view(out@)));
    }
    Ok(out)
}

impl Output for CsvOutput {
    fn inner_mut(&mut self) -> &mut Vec<u8> {
        &mut self.writer
    }

    fn into_inner(self) -> Vec<u8> {
        self.writer
    }
}

} // verus!
