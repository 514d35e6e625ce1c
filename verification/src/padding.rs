//! Padding schemes: rules that shape the sizes of the first writes of a
//! session, so that a tunnelled handshake does not stand out by its lengths.
//!
//! A scheme is a text of `key=value` lines. `stop=N` ends padding at the
//! N-th write. `I=S,S,...` gives the rule for write `I`: each `S` is either a
//! size range `lo-hi` or the check symbol `c`.
use crate::digest;
use crate::random;
use crate::text;
use crate::text::NumberError;
use std::collections::HashMap;
use vstd::prelude::*;
use vstd::slice::slice_subrange;
use vstd::utf8::*;

verus! {

/// One segment of a packet's rule.
#[derive(Debug, Clone, Copy, PartialEq, Eq, Structural)]
pub enum Segment {
    /// A size between the two bounds, both allowed. Real data fills it first;
    /// padding makes up for what is missing.
    Range(u32, u32),
    /// Ends the packet here when no real data is left.
    Check,
}

/// A padding scheme.
#[derive(Debug, Clone)]
pub struct PaddingScheme {
    /// The packet index from which writes pass through unchanged.
    pub stop: u32,
    /// The segments of the packets that have a rule; other packets pass
    /// through unchanged.
    pub rules: HashMap<u32, Vec<Segment>>,
    /// The text the scheme was read from.
    pub raw: String,
}

/// What the lines of a scheme say.
pub struct SchemeTable {
    pub stop: u32,
    pub rules: Map<u32, Seq<Segment>>,
}

/// Why a text is not a padding scheme.
#[derive(Debug)]
pub enum SchemeError {
    /// A line without an equals sign.
    Line(String),
    /// A segment that is neither a range nor the check symbol.
    Segment(String),
    /// A number that cannot be read.
    Number(NumberError),
}

/// What a [`SchemeError`] stands for.
pub enum SchemeErrorView {
    Line(Seq<char>),
    Segment(Seq<char>),
    Number(NumberError),
}

impl View for SchemeError {
    type V = SchemeErrorView;

    open spec fn view(&self) -> SchemeErrorView {
        match self {
            SchemeError::Line(s) => SchemeErrorView::Line(s@),
            SchemeError::Segment(s) => SchemeErrorView::Segment(s@),
            SchemeError::Number(e) => SchemeErrorView::Number(*e),
        }
    }
}

impl SchemeError {
    /// The message shown for this error.
    pub open spec fn message_text(self) -> Seq<char> {
        match self {
            SchemeError::Line(s) => "invalid padding scheme line: "@ + s@,
            SchemeError::Segment(s) => "invalid padding segment: "@ + s@,
            SchemeError::Number(e) => e.message_text(),
        }
    }

    /// The message shown for this error.
    pub fn message(&self) -> (r: String)
        ensures
            r@ == self.message_text(),
            self matches SchemeError::Line(s) ==> r@ == "invalid padding scheme line: "@ + s@,
            self matches SchemeError::Segment(s) ==> r@ == "invalid padding segment: "@ + s@,
    {
        match self {
            SchemeError::Line(s) => {
                let mut m: String = "invalid padding scheme line: ".to_owned();
                m.append(s.as_str());
                m
            },
            SchemeError::Segment(s) => {
                let mut m: String = "invalid padding segment: ".to_owned();
                m.append(s.as_str());
                m
            },
            SchemeError::Number(e) => e.message(),
        }
    }
}

impl View for PaddingScheme {
    type V = SchemeTable;

    open spec fn view(&self) -> SchemeTable {
        SchemeTable { stop: self.stop, rules: rule_table(self.rules@) }
    }
}

/// A rule table with the contents of its vectors.
pub open spec fn rule_table(rules: Map<u32, Vec<Segment>>) -> Map<u32, Seq<Segment>> {
    Map::new(|k: u32| rules.contains_key(k), |k: u32| rules[k]@)
}

/// The segment that a trimmed text spells.
pub open spec fn segment_of(part: Seq<char>) -> Result<Segment, SchemeErrorView> {
    if part == "c"@ {
        Ok(Segment::Check)
    } else {
        match text::split_once(part, '-') {
            None => Err(SchemeErrorView::Segment(part)),
            Some((lo, hi)) => match text::number(text::trim(lo), 0xFFFF_FFFF) {
                Err(e) => Err(SchemeErrorView::Number(e)),
                Ok(l) => match text::number(text::trim(hi), 0xFFFF_FFFF) {
                    Err(e) => Err(SchemeErrorView::Number(e)),
                    Ok(h) => Ok(Segment::Range(l as u32, h as u32)),
                },
            },
        }
    }
}

/// The segments that `parts` spell, behind those already read.
pub open spec fn segments_of(parts: Seq<Seq<char>>, read: Seq<Segment>) -> Result<
    Seq<Segment>,
    SchemeErrorView,
>
    decreases parts.len(),
{
    if parts.len() == 0 {
        Ok(read)
    } else {
        match segment_of(text::trim(parts[0])) {
            Err(e) => Err(e),
            Ok(s) => segments_of(parts.skip(1), read.push(s)),
        }
    }
}

/// What a trimmed line adds to the table.
pub open spec fn line_entry(line: Seq<char>, table: SchemeTable) -> Result<
    SchemeTable,
    SchemeErrorView,
> {
    if line.len() == 0 {
        Ok(table)
    } else {
        match text::split_once(line, '=') {
            None => Err(SchemeErrorView::Line(line)),
            Some((k, value)) => {
                let key = text::trim(k);
                if key == "stop"@ {
                    match text::number(text::trim(value), 0xFFFF_FFFF) {
                        Err(e) => Err(SchemeErrorView::Number(e)),
                        Ok(n) => Ok(SchemeTable { stop: n as u32, rules: table.rules }),
                    }
                } else {
                    match text::number(key, 0xFFFF_FFFF) {
                        Err(e) => Err(SchemeErrorView::Number(e)),
                        Ok(n) => match segments_of(text::split(value, ','), Seq::empty()) {
                            Err(e) => Err(e),
                            Ok(segs) => Ok(
                                SchemeTable {
                                    stop: table.stop,
                                    rules: table.rules.insert(n as u32, segs),
                                },
                            ),
                        },
                    }
                }
            },
        }
    }
}

/// What `lines` add to the table, from first to last; the first line at fault
/// decides the error.
pub open spec fn entries(lines: Seq<Seq<char>>, table: SchemeTable) -> Result<
    SchemeTable,
    SchemeErrorView,
>
    decreases lines.len(),
{
    if lines.len() == 0 {
        Ok(table)
    } else {
        match line_entry(text::trim(lines[0]), table) {
            Err(e) => Err(e),
            Ok(t) => entries(lines.skip(1), t),
        }
    }
}

/// The table of a scheme that says nothing.
pub open spec fn empty_table() -> SchemeTable {
    SchemeTable { stop: 0, rules: Map::empty() }
}

/// The table that a scheme text spells. White space round lines, keys, values
/// and segments does not matter, nor do empty lines.
pub open spec fn scheme_of(raw: Seq<char>) -> Result<SchemeTable, SchemeErrorView> {
    entries(text::split(raw, '\n'), empty_table())
}

/// Reads one trimmed segment.
fn parse_segment(part: &[char]) -> (r: Result<Segment, SchemeError>)
    ensures
        match r {
            Ok(s) => segment_of(part@) == Ok::<Segment, SchemeErrorView>(s),
            Err(e) => segment_of(part@) == Err::<Segment, SchemeErrorView>(e@),
        },
{
    if text::same_text(part, "c") {
        return Ok(Segment::Check);
    }
    match text::cut_first(part, '-') {
        None => Err(SchemeError::Segment(text::text_of(part))),
        Some((lo, hi)) => match text::parse_number(text::trimmed(lo), 0xFFFF_FFFF) {
            Err(e) => Err(SchemeError::Number(e)),
            Ok(l) => match text::parse_number(text::trimmed(hi), 0xFFFF_FFFF) {
                Err(e) => Err(SchemeError::Number(e)),
                Ok(h) => Ok(Segment::Range(l, h)),
            },
        },
    }
}

/// Reads the segments of one rule.
fn parse_segments(value: &[char]) -> (r: Result<Vec<Segment>, SchemeError>)
    ensures
        match r {
            Ok(v) => segments_of(text::split(value@, ','), Seq::empty()) == Ok::<
                Seq<Segment>,
                SchemeErrorView,
            >(v@),
            Err(e) => segments_of(text::split(value@, ','), Seq::empty()) == Err::<
                Seq<Segment>,
                SchemeErrorView,
            >(e@),
        },
{
    let parts: Vec<&[char]> = text::cut_all(value, ',');
    let ghost all = text::split(value@, ',');
    let mut segs: Vec<Segment> = Vec::new();
    let mut i: usize = 0;
    assert(all.skip(0) =~= all);
    while i < parts.len()
        invariant
            i <= parts.len(),
            text::pieces(parts@) == all,
            segments_of(all, Seq::empty()) == segments_of(all.skip(i as int), segs@),
            all == text::split(value@, ','),
        decreases parts.len() - i,
    {
        let part = text::trimmed(parts[i]);
        assert(all[i as int] == parts@[i as int]@);
        assert(all.skip(i as int)[0] == all[i as int]);
        assert(all.skip(i as int).skip(1) =~= all.skip(i + 1));
        match parse_segment(part) {
            Err(e) => {
                return Err(e);
            },
            Ok(s) => {
                segs.push(s);
            },
        }
        i = i + 1;
    }
    Ok(segs)
}

impl PaddingScheme {
    /// Reads the textual form of a scheme.
    pub fn parse(raw: &str) -> (r: Result<PaddingScheme, SchemeError>)
        ensures
            match r {
                Ok(s) => scheme_of(raw@) == Ok::<SchemeTable, SchemeErrorView>(s@) && s.raw@
                    == raw@,
                Err(e) => scheme_of(raw@) == Err::<SchemeTable, SchemeErrorView>(e@),
            },
    {
        let chars: Vec<char> = text::chars_of(raw);
        let lines: Vec<&[char]> = text::cut_all(chars.as_slice(), '\n');
        let ghost all = text::split(raw@, '\n');
        let mut stop: u32 = 0;
        let mut rules: HashMap<u32, Vec<Segment>> = HashMap::new();
        let mut i: usize = 0;
        assert(all.skip(0) =~= all);
        assert(rule_table(rules@) =~= Map::empty());
        while i < lines.len()
            invariant
                i <= lines.len(),
                all == text::split(raw@, '\n'),
                text::pieces(lines@) == all,
                scheme_of(raw@) == entries(
                    all.skip(i as int),
                    (SchemeTable { stop, rules: rule_table(rules@) }),
                ),
            decreases lines.len() - i,
        {
            let line = text::trimmed(lines[i]);
            let ghost table = SchemeTable { stop, rules: rule_table(rules@) };
            assert(all[i as int] == lines@[i as int]@);
            assert(all.skip(i as int)[0] == all[i as int]);
            assert(all.skip(i as int).skip(1) =~= all.skip(i + 1));
            if line.len() > 0 {
                match text::cut_first(line, '=') {
                    None => {
                        return Err(SchemeError::Line(text::text_of(line)));
                    },
                    Some((k, value)) => {
                        let key = text::trimmed(k);
                        if text::same_text(key, "stop") {
                            match text::parse_number(text::trimmed(value), 0xFFFF_FFFF) {
                                Err(e) => {
                                    return Err(SchemeError::Number(e));
                                },
                                Ok(n) => {
                                    stop = n;
                                },
                            }
                        } else {
                            match text::parse_number(key, 0xFFFF_FFFF) {
                                Err(e) => {
                                    return Err(SchemeError::Number(e));
                                },
                                Ok(n) => match parse_segments(value) {
                                    Err(e) => {
                                        return Err(e);
                                    },
                                    Ok(segs) => {
                                        let ghost before = rules@;
                                        rules.insert(n, segs);
                                        assert(rule_table(rules@) =~= rule_table(before).insert(
                                            n,
                                            segs@,
                                        ));
                                    },
                                },
                            }
                        }
                    },
                }
            }
            i = i + 1;
        }
        Ok(PaddingScheme { stop, rules, raw: raw.to_owned() })
    }
}

/// One write instruction: real payload bytes to send as they are, or a filler
/// frame of the given total length on the wire.
#[derive(Debug, Clone, Copy, PartialEq, Eq)]
pub enum Chunk<'a> {
    Real(&'a [u8]),
    Waste(usize),
}

/// What a [`Chunk`] stands for.
pub enum ChunkView {
    Real(Seq<u8>),
    Waste(nat),
}

impl<'a> View for Chunk<'a> {
    type V = ChunkView;

    open spec fn view(&self) -> ChunkView {
        match self {
            Chunk::Real(b) => ChunkView::Real(b@),
            Chunk::Waste(n) => ChunkView::Waste(*n as nat),
        }
    }
}

/// What a list of chunks stands for.
pub open spec fn chunk_views<'a>(v: Seq<Chunk<'a>>) -> Seq<ChunkView> {
    v.map_values(|c: Chunk<'a>| c@)
}

/// Whether `target` is a size that the segment allows.
pub open spec fn fits(seg: Segment, target: u32) -> bool {
    match seg {
        Segment::Range(lo, hi) => if hi > lo {
            lo <= target <= hi
        } else {
            target == lo
        },
        Segment::Check => true,
    }
}

/// Whether there is one size for each segment, and each is allowed.
pub open spec fn targets_fit(segs: Seq<Segment>, targets: Seq<u32>) -> bool {
    &&& targets.len() == segs.len()
    &&& forall|i: int| 0 <= i < segs.len() ==> fits(#[trigger] segs[i], targets[i])
}

/// How `data` is cut up and padded by `segs` when the size chosen for each
/// range is the one at its place in `targets`. What is left at the end goes
/// out in one piece.
pub open spec fn plan(segs: Seq<Segment>, targets: Seq<u32>, data: Seq<u8>) -> Seq<ChunkView>
    decreases segs.len(),
{
    if segs.len() == 0 {
        if data.len() > 0 {
            seq![ChunkView::Real(data)]
        } else {
            Seq::empty()
        }
    } else {
        match segs[0] {
            Segment::Check => if data.len() == 0 {
                Seq::empty()
            } else {
                plan(segs.skip(1), targets.skip(1), data)
            },
            Segment::Range(_, _) => {
                let t = targets[0] as int;
                if data.len() >= t {
                    seq![ChunkView::Real(data.take(t))] + plan(
                        segs.skip(1),
                        targets.skip(1),
                        data.skip(t),
                    )
                } else {
                    let head = if data.len() > 0 {
                        seq![ChunkView::Real(data)]
                    } else {
                        Seq::empty()
                    };
                    head + seq![ChunkView::Waste((t - data.len()) as nat)] + plan(
                        segs.skip(1),
                        targets.skip(1),
                        Seq::empty(),
                    )
                }
            },
        }
    }
}

/// The segments that apply to a packet, if any do.
pub open spec fn rule_for(scheme: SchemeTable, packet_index: u32) -> Option<Seq<Segment>> {
    if packet_index >= scheme.stop || !scheme.rules.contains_key(packet_index) {
        None
    } else {
        Some(scheme.rules[packet_index])
    }
}

/// How a packet goes out: as one piece where no rule applies.
pub open spec fn packet_plan(
    scheme: SchemeTable,
    packet_index: u32,
    targets: Seq<u32>,
    data: Seq<u8>,
) -> Seq<ChunkView> {
    match rule_for(scheme, packet_index) {
        None => seq![ChunkView::Real(data)],
        Some(segs) => plan(segs, targets, data),
    }
}

/// Whether `targets` are sizes that the rule for a packet allows.
pub open spec fn packet_targets_fit(
    scheme: SchemeTable,
    packet_index: u32,
    targets: Seq<u32>,
) -> bool {
    match rule_for(scheme, packet_index) {
        None => targets.len() == 0,
        Some(segs) => targets_fit(segs, targets),
    }
}

/// The first size range among `segs`.
pub open spec fn first_range(segs: Seq<Segment>) -> Option<(u32, u32)>
    decreases segs.len(),
{
    if segs.len() == 0 {
        None
    } else {
        match segs[0] {
            Segment::Range(lo, hi) => Some((lo, hi)),
            Segment::Check => first_range(segs.skip(1)),
        }
    }
}

/// The size range of the padding that goes with authentication: the first one
/// in the rule for packet 0.
pub open spec fn padding0_bounds(scheme: SchemeTable) -> Option<(u32, u32)> {
    if scheme.rules.contains_key(0) {
        first_range(scheme.rules[0])
    } else {
        None
    }
}

/// Whether `n` is an allowed length for the padding that goes with
/// authentication.
pub open spec fn padding0_fits(scheme: SchemeTable, n: nat) -> bool {
    match padding0_bounds(scheme) {
        None => n == 0,
        Some((lo, hi)) => if hi > lo {
            lo <= n <= hi
        } else {
            n == lo
        },
    }
}

/// Picks a size for one segment; 0 for the check symbol.
fn pick_target(seg: Segment) -> (r: u32)
    ensures
        fits(seg, r),
{
    match seg {
        Segment::Range(lo, hi) => if hi > lo {
            random::random_between(lo, hi)
        } else {
            lo
        },
        Segment::Check => 0,
    }
}

impl PaddingScheme {
    /// Lower-case hexadecimal MD5 of the scheme text, by which peers notice
    /// that their schemes differ.
    pub fn md5_hex(&self) -> (r: String)
        ensures
            r@ == digest::hex_lower(digest::md5_of(encode_utf8(self.raw@))),
            r@.len() == 32,
    {
        let d: [u8; 16] = digest::md5_digest(self.raw.as_str().as_bytes());
        digest::hex_text(d.as_slice())
    }

    /// The size range of the padding that goes with authentication.
    pub fn padding0_range(&self) -> (r: Option<(u32, u32)>)
        ensures
            r == padding0_bounds(self@),
    {
        match self.rules.get(&0) {
            None => None,
            Some(segs) => {
                assert(self@.rules[0] == segs@);
                let mut i: usize = 0;
                assert(segs@.skip(0) =~= segs@);
                while i < segs.len()
                    invariant
                        i <= segs.len(),
                        padding0_bounds(self@) == first_range(segs@.skip(i as int)),
                    decreases segs.len() - i,
                {
                    assert(segs@.skip(i as int)[0] == segs@[i as int]);
                    assert(segs@.skip(i as int).skip(1) =~= segs@.skip(i + 1));
                    match segs[i] {
                        Segment::Range(lo, hi) => {
                            return Some((lo, hi));
                        },
                        Segment::Check => {},
                    }
                    i = i + 1;
                }
                None
            },
        }
    }

    /// Picks a length for the padding that goes with authentication; 0 where
    /// the scheme has no range for it.
    pub fn padding0_len(&self) -> (r: usize)
        ensures
            padding0_fits(self@, r as nat),
    {
        match self.padding0_range() {
            None => 0,
            Some((lo, hi)) => {
                let n: u32 = pick_target(Segment::Range(lo, hi));
                n as usize
            },
        }
    }

    /// Picks a size for each segment of the rule for a packet.
    pub fn pick_targets(&self, packet_index: u32) -> (r: Vec<u32>)
        ensures
            packet_targets_fit(self@, packet_index, r@),
    {
        let mut targets: Vec<u32> = Vec::new();
        if packet_index >= self.stop {
            return targets;
        }
        match self.rules.get(&packet_index) {
            None => targets,
            Some(segs) => {
                assert(self@.rules[packet_index] == segs@);
                let mut i: usize = 0;
                while i < segs.len()
                    invariant
                        i <= segs.len(),
                        targets.len() == i,
                        forall|j: int| 0 <= j < i ==> fits(#[trigger] segs@[j], targets@[j]),
                    decreases segs.len() - i,
                {
                    targets.push(pick_target(segs[i]));
                    i = i + 1;
                }
                targets
            },
        }
    }
}

/// Cuts up and pads one packet with the given choice of sizes.
pub fn plan_write_with<'a>(
    scheme: &PaddingScheme,
    packet_index: u32,
    targets: &[u32],
    data: &'a [u8],
) -> (r: Vec<Chunk<'a>>)
    requires
        rule_for(scheme@, packet_index) matches Some(segs) ==> targets.len() == segs.len(),
    ensures
        chunk_views(r@) == packet_plan(scheme@, packet_index, targets@, data@),
{
    let mut out: Vec<Chunk<'a>> = Vec::new();
    if packet_index >= scheme.stop {
        out.push(Chunk::Real(data));
        assert(chunk_views(out@) =~= seq![ChunkView::Real(data@)]);
        return out;
    }
    match scheme.rules.get(&packet_index) {
        None => {
            out.push(Chunk::Real(data));
            assert(chunk_views(out@) =~= seq![ChunkView::Real(data@)]);
            out
        },
        Some(segs) => {
            assert(scheme@.rules[packet_index] == segs@);
            let mut remaining: &'a [u8] = data;
            let mut i: usize = 0;
            assert(segs@.skip(0) =~= segs@);
            assert(targets@.skip(0) =~= targets@);
            assert(chunk_views(out@) + plan(segs@, targets@, data@) =~= plan(
                segs@,
                targets@,
                data@,
            ));
            while i < segs.len()
                invariant
                    i <= segs.len(),
                    targets.len() == segs.len(),
                    chunk_views(out@) + plan(
                        segs@.skip(i as int),
                        targets@.skip(i as int),
                        remaining@,
                    ) == plan(segs@, targets@, data@),
                    rule_for(scheme@, packet_index) == Some(segs@),
                decreases segs.len() - i,
            {
                let ghost before = chunk_views(out@);
                let ghost left = remaining@;
                let ghost rest_segs = segs@.skip(i + 1);
                let ghost rest_targets = targets@.skip(i + 1);
                assert(segs@.skip(i as int)[0] == segs@[i as int]);
                assert(segs@.skip(i as int).skip(1) =~= rest_segs);
                assert(targets@.skip(i as int)[0] == targets@[i as int]);
                assert(targets@.skip(i as int).skip(1) =~= rest_targets);
                match segs[i] {
                    Segment::Check => {
                        if remaining.len() == 0 {
                            assert(before + Seq::<ChunkView>::empty() =~= before);
                            return out;
                        }
                    },
                    Segment::Range(_, _) => {
                        let target: usize = targets[i] as usize;
                        if remaining.len() >= target {
                            let (chunk, rest) = remaining.split_at(target);
                            assert(chunk@ =~= left.take(target as int));
                            assert(rest@ =~= left.skip(target as int));
                            out.push(Chunk::Real(chunk));
                            remaining = rest;
                            assert(chunk_views(out@) =~= before.push(ChunkView::Real(chunk@)));
                            assert(chunk_views(out@) + plan(rest_segs, rest_targets, rest@)
                                =~= before + (seq![ChunkView::Real(chunk@)] + plan(
                                rest_segs,
                                rest_targets,
                                rest@,
                            )));
                        } else {
                            let real_len: usize = remaining.len();
                            let ghost head: Seq<ChunkView> = if left.len() > 0 {
                                seq![ChunkView::Real(left)]
                            } else {
                                Seq::empty()
                            };
                            if real_len > 0 {
                                out.push(Chunk::Real(remaining));
                            }
                            assert(chunk_views(out@) =~= before + head);
                            remaining = slice_subrange(remaining, real_len, real_len);
                            assert(remaining@ =~= Seq::<u8>::empty());
                            let ghost mid = chunk_views(out@);
                            out.push(Chunk::Waste(target - real_len));
                            let ghost waste = ChunkView::Waste((target - real_len) as nat);
                            assert(chunk_views(out@) =~= mid.push(waste));
                            assert(chunk_views(out@) + plan(rest_segs, rest_targets, remaining@)
                                =~= before + (head + seq![waste] + plan(
                                rest_segs,
                                rest_targets,
                                Seq::empty(),
                            )));
                        }
                    },
                }
                i = i + 1;
            }
            let ghost before = chunk_views(out@);
            assert(segs@.skip(i as int).len() == 0);
            if remaining.len() > 0 {
                out.push(Chunk::Real(remaining));
                assert(chunk_views(out@) =~= before + seq![ChunkView::Real(remaining@)]);
            } else {
                assert(before + Seq::<ChunkView>::empty() =~= before);
            }
            out
        },
    }
}

/// Cuts up and pads one packet, with a random choice of sizes within the
/// bounds of its rule.
pub fn plan_write<'a>(scheme: &PaddingScheme, packet_index: u32, data: &'a [u8]) -> (r: Vec<
    Chunk<'a>,
>)
    ensures
        exists|targets: Seq<u32>|
            packet_targets_fit(scheme@, packet_index, targets) && chunk_views(r@)
                == #[trigger] packet_plan(scheme@, packet_index, targets, data@),
{
    let targets: Vec<u32> = scheme.pick_targets(packet_index);
    plan_write_with(scheme, packet_index, targets.as_slice(), data)
}

/// The real bytes of a plan, in order.
pub open spec fn real_bytes(chunks: Seq<ChunkView>) -> Seq<u8>
    decreases chunks.len(),
{
    if chunks.len() == 0 {
        Seq::empty()
    } else {
        match chunks[0] {
            ChunkView::Real(b) => b + real_bytes(chunks.skip(1)),
            ChunkView::Waste(_) => real_bytes(chunks.skip(1)),
        }
    }
}

/// The number of bytes that a plan calls for. Fillers too small to hold a frame
/// header are counted here, though none is written for them.
pub open spec fn planned_len(chunks: Seq<ChunkView>) -> nat
    decreases chunks.len(),
{
    if chunks.len() == 0 {
        0
    } else {
        planned_len(chunks.skip(1)) + match chunks[0] {
            ChunkView::Real(b) => b.len(),
            ChunkView::Waste(n) => n,
        }
    }
}

/// The sum of the chosen sizes.
pub open spec fn target_sum(targets: Seq<u32>) -> nat
    decreases targets.len(),
{
    if targets.len() == 0 {
        0
    } else {
        targets[0] as nat + target_sum(targets.skip(1))
    }
}

proof fn lemma_real_bytes_cons(head: ChunkView, tail: Seq<ChunkView>)
    ensures
        real_bytes(seq![head] + tail) == (match head {
            ChunkView::Real(b) => b + real_bytes(tail),
            ChunkView::Waste(_) => real_bytes(tail),
        }),
        planned_len(seq![head] + tail) == planned_len(tail) + (match head {
            ChunkView::Real(b) => b.len(),
            ChunkView::Waste(n) => n,
        }),
{
    assert((seq![head] + tail).skip(1) =~= tail);
}

/// Whether no data follows a filler.
pub open spec fn data_first(chunks: Seq<ChunkView>) -> bool {
    forall|i: int, j: int|
        0 <= i < j < chunks.len() && #[trigger] chunks[i] is Waste ==> (#[trigger] chunks[j]
            matches ChunkView::Real(b) ==> b.len() == 0)
}

/// Whether no filler is empty.
pub open spec fn fillers_positive(chunks: Seq<ChunkView>) -> bool {
    forall|i: int|
        0 <= i < chunks.len() ==> (#[trigger] chunks[i] matches ChunkView::Waste(n) ==> n > 0)
}

/// Whether there is no data.
spec fn no_data(chunks: Seq<ChunkView>) -> bool {
    forall|i: int|
        0 <= i < chunks.len() ==> (#[trigger] chunks[i] matches ChunkView::Real(b) ==> b.len()
            == 0)
}

proof fn lemma_shape_cons(head: ChunkView, tail: Seq<ChunkView>)
    requires
        data_first(tail),
        fillers_positive(tail),
        head matches ChunkView::Waste(n) ==> n > 0 && no_data(tail),
    ensures
        data_first(seq![head] + tail),
        fillers_positive(seq![head] + tail),
        (head matches ChunkView::Real(b) ==> b.len() == 0) && no_data(tail) ==> no_data(
            seq![head] + tail,
        ),
{
    let all = seq![head] + tail;
    assert forall|i: int| 0 <= i < all.len() implies #[trigger] all[i] == (if i == 0 {
        head
    } else {
        tail[i - 1]
    }) by {}
}

/// The shape of a plan: data before padding, and no empty padding.
proof fn lemma_plan_shape(segs: Seq<Segment>, targets: Seq<u32>, data: Seq<u8>)
    ensures
        data_first(plan(segs, targets, data)),
        fillers_positive(plan(segs, targets, data)),
        data.len() == 0 ==> no_data(plan(segs, targets, data)),
    decreases segs.len(),
{
    if segs.len() > 0 {
        match segs[0] {
            Segment::Check => {
                if data.len() > 0 {
                    lemma_plan_shape(segs.skip(1), targets.skip(1), data);
                }
            },
            Segment::Range(_, _) => {
                let t = targets[0] as int;
                if data.len() >= t {
                    let rest = plan(segs.skip(1), targets.skip(1), data.skip(t));
                    lemma_plan_shape(segs.skip(1), targets.skip(1), data.skip(t));
                    lemma_shape_cons(ChunkView::Real(data.take(t)), rest);
                } else {
                    let rest = plan(segs.skip(1), targets.skip(1), Seq::empty());
                    let whole = ChunkView::Real(data);
                    let waste = ChunkView::Waste((t - data.len()) as nat);
                    lemma_plan_shape(segs.skip(1), targets.skip(1), Seq::empty());
                    lemma_shape_cons(waste, rest);
                    if data.len() > 0 {
                        lemma_shape_cons(whole, seq![waste] + rest);
                        assert(seq![whole] + seq![waste] + rest =~= seq![whole] + (seq![waste]
                            + rest));
                    } else {
                        assert(Seq::<ChunkView>::empty() + seq![waste] + rest =~= seq![waste]
                            + rest);
                    }
                }
            },
        }
    }
}

/// Padding never drops, repeats or reorders data: the real chunks of a packet,
/// put together, are the packet, whatever sizes are chosen. Padding comes after
/// the data, and no filler is empty.
pub proof fn law_plan_keeps_data(
    scheme: SchemeTable,
    packet_index: u32,
    targets: Seq<u32>,
    data: Seq<u8>,
)
    ensures
        real_bytes(packet_plan(scheme, packet_index, targets, data)) == data,
        data_first(packet_plan(scheme, packet_index, targets, data)),
        fillers_positive(packet_plan(scheme, packet_index, targets, data)),
{
    match rule_for(scheme, packet_index) {
        None => {
            lemma_real_bytes_cons(ChunkView::Real(data), Seq::empty());
            assert(seq![ChunkView::Real(data)] + Seq::<ChunkView>::empty() =~= seq![
                ChunkView::Real(data),
            ]);
            assert(data + Seq::<u8>::empty() =~= data);
        },
        Some(segs) => {
            lemma_plan_keeps_data(segs, targets, data);
            lemma_plan_shape(segs, targets, data);
        },
    }
}

proof fn lemma_plan_keeps_data(segs: Seq<Segment>, targets: Seq<u32>, data: Seq<u8>)
    ensures
        real_bytes(plan(segs, targets, data)) == data,
    decreases segs.len(),
{
    let none = Seq::<ChunkView>::empty();
    let whole = ChunkView::Real(data);
    lemma_real_bytes_cons(whole, none);
    assert(seq![whole] + none =~= seq![whole]);
    assert(data + Seq::<u8>::empty() =~= data);
    if segs.len() == 0 {
        if data.len() == 0 {
            assert(data =~= Seq::<u8>::empty());
        }
    } else {
        match segs[0] {
            Segment::Check => {
                if data.len() == 0 {
                    assert(data =~= Seq::<u8>::empty());
                } else {
                    lemma_plan_keeps_data(segs.skip(1), targets.skip(1), data);
                }
            },
            Segment::Range(_, _) => {
                let t = targets[0] as int;
                if data.len() >= t {
                    let rest = plan(segs.skip(1), targets.skip(1), data.skip(t));
                    lemma_plan_keeps_data(segs.skip(1), targets.skip(1), data.skip(t));
                    lemma_real_bytes_cons(ChunkView::Real(data.take(t)), rest);
                    assert(data.take(t) + data.skip(t) =~= data);
                } else {
                    let rest = plan(segs.skip(1), targets.skip(1), Seq::empty());
                    let waste = ChunkView::Waste((t - data.len()) as nat);
                    lemma_plan_keeps_data(segs.skip(1), targets.skip(1), Seq::empty());
                    lemma_real_bytes_cons(waste, rest);
                    if data.len() > 0 {
                        lemma_real_bytes_cons(whole, seq![waste] + rest);
                        assert(seq![whole] + seq![waste] + rest =~= seq![whole] + (seq![waste]
                            + rest));
                    } else {
                        assert(none + seq![waste] + rest =~= seq![waste] + rest);
                        assert(data =~= Seq::<u8>::empty());
                    }
                }
            },
        }
    }
}

/// A rule without check symbols fixes the size that a plan calls for: it is the
/// sum of the chosen sizes, or that of the data where there is more of it.
pub proof fn law_plan_size(segs: Seq<Segment>, targets: Seq<u32>, data: Seq<u8>)
    requires
        targets.len() == segs.len(),
        !segs.contains(Segment::Check),
    ensures
        planned_len(plan(segs, targets, data)) == (if data.len() >= target_sum(targets) {
            data.len()
        } else {
            target_sum(targets)
        }),
    decreases segs.len(),
{
    let none = Seq::<ChunkView>::empty();
    let whole = ChunkView::Real(data);
    lemma_real_bytes_cons(whole, none);
    assert(seq![whole] + none =~= seq![whole]);
    if segs.len() > 0 {
        assert(segs.contains(segs[0]));
        assert forall|s: Segment| segs.skip(1).contains(s) implies segs.contains(s) by {
            let i = choose|i: int| 0 <= i < segs.skip(1).len() && segs.skip(1)[i] == s;
            assert(segs[i + 1] == s);
        }
        let t = targets[0] as int;
        if data.len() >= t {
            let rest = plan(segs.skip(1), targets.skip(1), data.skip(t));
            law_plan_size(segs.skip(1), targets.skip(1), data.skip(t));
            lemma_real_bytes_cons(ChunkView::Real(data.take(t)), rest);
        } else {
            let rest = plan(segs.skip(1), targets.skip(1), Seq::empty());
            let waste = ChunkView::Waste((t - data.len()) as nat);
            law_plan_size(segs.skip(1), targets.skip(1), Seq::empty());
            lemma_real_bytes_cons(waste, rest);
            if data.len() > 0 {
                lemma_real_bytes_cons(whole, seq![waste] + rest);
                assert(seq![whole] + seq![waste] + rest =~= seq![whole] + (seq![waste] + rest));
            } else {
                assert(none + seq![waste] + rest =~= seq![waste] + rest);
            }
        }
    }
}

/// From the stop index on, and where a packet has no rule, writes pass through
/// unchanged.
pub proof fn law_pass_through(
    scheme: SchemeTable,
    packet_index: u32,
    targets: Seq<u32>,
    data: Seq<u8>,
)
    requires
        packet_index >= scheme.stop || !scheme.rules.contains_key(packet_index),
    ensures
        packet_plan(scheme, packet_index, targets, data) == seq![ChunkView::Real(data)],
{
}

/// A check symbol reached with no data left ends the packet: nothing behind it
/// is sent.
pub proof fn law_check_ends_packet(segs: Seq<Segment>, targets: Seq<u32>)
    requires
        segs.len() > 0,
        segs[0] == Segment::Check,
    ensures
        plan(segs, targets, Seq::empty()) == Seq::<ChunkView>::empty(),
{
}

/// A check symbol reached with data left changes nothing: the packet goes on as
/// if it were not there.
pub proof fn law_check_with_data_changes_nothing(
    segs: Seq<Segment>,
    targets: Seq<u32>,
    data: Seq<u8>,
)
    requires
        segs.len() > 0,
        segs[0] == Segment::Check,
        data.len() > 0,
    ensures
        plan(segs, targets, data) == plan(segs.skip(1), targets.skip(1), data),
{
}

/// A size range is filled: with data as far as there is any, and with one
/// filler for what is missing. What is left of the data goes to the segments
/// behind it, and behind the last of them it goes out in one piece.
pub proof fn law_range_is_filled(segs: Seq<Segment>, targets: Seq<u32>, data: Seq<u8>)
    ensures
        segs.len() == 0 && data.len() > 0 ==> plan(segs, targets, data) == seq![
            ChunkView::Real(data),
        ],
        segs.len() == 0 && data.len() == 0 ==> plan(segs, targets, data).len() == 0,
        segs.len() > 0 && segs[0] is Range ==> {
            let t = targets[0] as int;
            let rest_segs = segs.skip(1);
            let rest_targets = targets.skip(1);
            let nothing = Seq::<u8>::empty();
            &&& t <= data.len() ==> plan(segs, targets, data) == seq![
                ChunkView::Real(data.take(t)),
            ] + plan(rest_segs, rest_targets, data.skip(t))
            &&& 0 < data.len() < t ==> plan(segs, targets, data) == seq![
                ChunkView::Real(data),
                ChunkView::Waste((t - data.len()) as nat),
            ] + plan(rest_segs, rest_targets, nothing)
            &&& data.len() == 0 && t > 0 ==> plan(segs, targets, data) == seq![
                ChunkView::Waste(t as nat),
            ] + plan(rest_segs, rest_targets, nothing)
        },
{
    if segs.len() > 0 && segs[0] is Range {
        let t = targets[0] as int;
        let rest = plan(segs.skip(1), targets.skip(1), Seq::empty());
        let whole = ChunkView::Real(data);
        let waste = ChunkView::Waste((t - data.len()) as nat);
        assert(seq![whole] + seq![waste] + rest =~= seq![whole, waste] + rest);
        assert(Seq::<ChunkView>::empty() + seq![waste] + rest =~= seq![waste] + rest);
    }
}

/// The sum of the sizes chosen for the ranges among `segs`.
pub open spec fn range_sum(segs: Seq<Segment>, targets: Seq<u32>) -> nat
    decreases segs.len(),
{
    if segs.len() == 0 {
        0
    } else {
        (if segs[0] is Range {
            targets[0] as nat
        } else {
            0
        }) + range_sum(segs.skip(1), targets.skip(1))
    }
}

proof fn lemma_range_sum_take(segs: Seq<Segment>, targets: Seq<u32>, j: int)
    requires
        0 < j <= segs.len(),
        targets.len() == segs.len(),
    ensures
        range_sum(segs.take(j), targets.take(j)) == (if segs[0] is Range {
            targets[0] as nat
        } else {
            0
        }) + range_sum(segs.skip(1).take(j - 1), targets.skip(1).take(j - 1)),
{
    assert(segs.take(j).skip(1) =~= segs.skip(1).take(j - 1));
    assert(targets.take(j).skip(1) =~= targets.skip(1).take(j - 1));
}

/// The size of a packet: the ranges in front of the first check symbol by which
/// they have used up all data set it, whatever they are filled with; data that
/// is more than all ranges take goes out in full. `k` is the position of that
/// check symbol, or the number of segments where there is none.
pub proof fn law_plan_size_with_checks(
    segs: Seq<Segment>,
    targets: Seq<u32>,
    data: Seq<u8>,
    k: int,
)
    requires
        targets.len() == segs.len(),
        0 <= k <= segs.len(),
        k < segs.len() ==> segs[k] == Segment::Check && range_sum(segs.take(k), targets.take(k))
            >= data.len(),
        forall|j: int|
            0 <= j < k && #[trigger] segs[j] == Segment::Check ==> range_sum(
                segs.take(j),
                targets.take(j),
            ) < data.len(),
    ensures
        planned_len(plan(segs, targets, data)) == (if range_sum(segs.take(k), targets.take(k))
            >= data.len() {
            range_sum(segs.take(k), targets.take(k))
        } else {
            data.len()
        }),
    decreases segs.len(),
{
    let none = Seq::<ChunkView>::empty();
    let whole = ChunkView::Real(data);
    lemma_real_bytes_cons(whole, none);
    assert(seq![whole] + none =~= seq![whole]);
    assert(segs.take(0) =~= Seq::<Segment>::empty());
    if segs.len() > 0 && k > 0 {
        let rest_segs = segs.skip(1);
        let rest_targets = targets.skip(1);
        lemma_range_sum_take(segs, targets, k);
        let t = if segs[0] is Range {
            targets[0] as int
        } else {
            0
        };
        let used = if t < data.len() {
            t
        } else {
            data.len() as int
        };
        let left = data.skip(used);
        assert(segs[0] == Segment::Check || segs[0] is Range);
        if segs[0] == Segment::Check {
            assert(range_sum(segs.take(0), targets.take(0)) < data.len());
            assert(left =~= data);
        }
        assert forall|j: int|
            0 <= j < k - 1 && #[trigger] rest_segs[j] == Segment::Check implies range_sum(
            rest_segs.take(j),
            rest_targets.take(j),
        ) < left.len() by {
            assert(segs[j + 1] == Segment::Check);
            lemma_range_sum_take(segs, targets, j + 1);
        }
        assert(k < segs.len() ==> rest_segs[k - 1] == segs[k]);
        law_plan_size_with_checks(rest_segs, rest_targets, left, k - 1);
        if segs[0] is Range {
            if t <= data.len() {
                lemma_real_bytes_cons(
                    ChunkView::Real(data.take(t)),
                    plan(rest_segs, rest_targets, left),
                );
            } else {
                let rest = plan(rest_segs, rest_targets, Seq::empty());
                let waste = ChunkView::Waste((t - data.len()) as nat);
                assert(left =~= Seq::<u8>::empty());
                lemma_real_bytes_cons(waste, rest);
                lemma_real_bytes_cons(whole, seq![waste] + rest);
                assert(seq![whole] + seq![waste] + rest =~= seq![whole] + (seq![waste] + rest));
                assert(none + seq![waste] + rest =~= seq![waste] + rest);
            }
        }
    }
}

/// Below the stop index a packet goes out by its own rule.
pub proof fn law_rule_applies(
    scheme: SchemeTable,
    packet_index: u32,
    targets: Seq<u32>,
    data: Seq<u8>,
)
    requires
        packet_index < scheme.stop,
        scheme.rules.contains_key(packet_index),
    ensures
        packet_plan(scheme, packet_index, targets, data) == plan(
            scheme.rules[packet_index],
            targets,
            data,
        ),
        packet_targets_fit(scheme, packet_index, targets) <==> targets_fit(
            scheme.rules[packet_index],
            targets,
        ),
{
}

/// A size is drawn from the bounds of its range, both allowed; bounds the wrong
/// way round, or alike, leave the first of them. Every choice of such sizes, one
/// for each segment, is allowed; and where a packet has no rule there is nothing
/// to choose.
pub proof fn law_sizes_stay_in_bounds(
    scheme: SchemeTable,
    packet_index: u32,
    segs: Seq<Segment>,
    targets: Seq<u32>,
)
    ensures
        targets_fit(segs, targets) <==> targets.len() == segs.len() && (forall|i: int|
            0 <= i < segs.len() ==> (#[trigger] segs[i] matches Segment::Range(lo, hi) ==> (if lo
                < hi {
                lo <= targets[i] <= hi
            } else {
                targets[i] == lo
            }))),
        packet_index >= scheme.stop || !scheme.rules.contains_key(packet_index) ==> (
        packet_targets_fit(scheme, packet_index, targets) <==> targets.len() == 0),
{
    if targets_fit(segs, targets) {
        assert forall|i: int| 0 <= i < segs.len() implies (#[trigger] segs[i]
            matches Segment::Range(lo, hi) ==> (if lo < hi {
            lo <= targets[i] <= hi
        } else {
            targets[i] == lo
        })) by {
            assert(fits(segs[i], targets[i]));
        }
    }
}

/// The padding that goes with authentication is as long as the first range in
/// the rule for packet 0 says, whatever check symbols stand in front of it; it
/// is empty where there is no such range.
pub proof fn law_auth_padding_goes_by_first_range(
    scheme: SchemeTable,
    n: nat,
    k: int,
    lo: u32,
    hi: u32,
)
    ensures
        !scheme.rules.contains_key(0) ==> (padding0_fits(scheme, n) <==> n == 0),
        scheme.rules.contains_key(0) && (forall|j: int|
            0 <= j < scheme.rules[0].len() ==> #[trigger] scheme.rules[0][j] == Segment::Check)
            ==> (padding0_fits(scheme, n) <==> n == 0),
        scheme.rules.contains_key(0) && 0 <= k < scheme.rules[0].len() && scheme.rules[0][k]
            == Segment::Range(lo, hi) && (forall|j: int|
            0 <= j < k ==> #[trigger] scheme.rules[0][j] == Segment::Check) ==> (padding0_fits(
            scheme,
            n,
        ) <==> (if lo < hi {
            lo <= n <= hi
        } else {
            n == lo
        })),
{
    if scheme.rules.contains_key(0) {
        let segs = scheme.rules[0];
        if forall|j: int| 0 <= j < segs.len() ==> #[trigger] segs[j] == Segment::Check {
            lemma_first_range(segs, segs.len() as int);
        }
        if 0 <= k < segs.len() && segs[k] == Segment::Range(lo, hi) && (forall|j: int|
            0 <= j < k ==> #[trigger] segs[j] == Segment::Check) {
            lemma_first_range(segs, k);
        }
    }
}

proof fn lemma_first_range(segs: Seq<Segment>, k: int)
    requires
        0 <= k <= segs.len(),
        forall|j: int| 0 <= j < k ==> #[trigger] segs[j] == Segment::Check,
        k < segs.len() ==> segs[k] is Range,
    ensures
        first_range(segs) == (if k < segs.len() {
            match segs[k] {
                Segment::Range(lo, hi) => Some((lo, hi)),
                Segment::Check => None,
            }
        } else {
            None
        }),
    decreases segs.len(),
{
    if k > 0 {
        assert(segs[0] == Segment::Check);
        assert forall|j: int| 0 <= j < k - 1 implies #[trigger] segs.skip(1)[j]
            == Segment::Check by {
            assert(segs[j + 1] == Segment::Check);
        }
        lemma_first_range(segs.skip(1), k - 1);
    }
}

/// Two numbers with a dash between them spell a range with these bounds,
/// whatever white space stands round them.
pub proof fn law_range_is_read(
    lo: u32,
    hi: u32,
    w1: Seq<char>,
    w2: Seq<char>,
    w3: Seq<char>,
    w4: Seq<char>,
)
    requires
        text::blank(w1),
        text::blank(w2),
        text::blank(w3),
        text::blank(w4),
    ensures
        segment_of(
            text::trim(
                w1 + (text::decimal(lo as nat) + w2 + seq!['-'] + (w3 + text::decimal(
                    hi as nat,
                ))) + w4,
            ),
        ) == Ok::<Segment, SchemeErrorView>(Segment::Range(lo, hi)),
        segment_of("c"@) == Ok::<Segment, SchemeErrorView>(Segment::Check),
{
    let a = text::decimal(lo as nat);
    let b = text::decimal(hi as nat);
    let inner = a + w2 + seq!['-'] + (w3 + b);
    text::law_decimal(lo as nat, 0xFFFF_FFFF);
    text::law_decimal(hi as nat, 0xFFFF_FFFF);
    assert(inner[0] == a[0]);
    assert(inner.last() == b[b.len() - 1]);
    text::law_trim(w1, inner, w4);
    reveal_strlit("c");
    assert(inner[0] != 'c');
    assert("c"@[0] == 'c');
    assert(!(a + w2).contains('-')) by {
        if (a + w2).contains('-') {
            let j = choose|j: int| 0 <= j < (a + w2).len() && (a + w2)[j] == '-';
            if j < a.len() {
                assert((a + w2)[j] == a[j]);
            } else {
                assert((a + w2)[j] == w2[j - a.len()]);
            }
        }
    }
    text::law_split_once(inner, '-', a + w2, w3 + b);
    let none = Seq::<char>::empty();
    text::law_trim(none, a, w2);
    assert(none + a + w2 =~= a + w2);
    text::law_trim(w3, b, none);
    assert(w3 + b + none =~= w3 + b);
}

/// A segment that is not the check symbol and has no dash is refused as it
/// stands. Any other is a range with the numbers in front of its first dash and
/// behind it, and is refused for the first of them that cannot be read.
pub proof fn law_segment_is_read(part: Seq<char>, lo: Seq<char>, hi: Seq<char>)
    ensures
        part != "c"@ && !part.contains('-') ==> segment_of(part) == Err::<
            Segment,
            SchemeErrorView,
        >(SchemeErrorView::Segment(part)),
        !lo.contains('-') ==> (match text::number(text::trim(lo), 0xFFFF_FFFF) {
            Err(e) => segment_of(lo + seq!['-'] + hi) == Err::<Segment, SchemeErrorView>(
                SchemeErrorView::Number(e),
            ),
            Ok(l) => match text::number(text::trim(hi), 0xFFFF_FFFF) {
                Err(e) => segment_of(lo + seq!['-'] + hi) == Err::<Segment, SchemeErrorView>(
                    SchemeErrorView::Number(e),
                ),
                Ok(h) => segment_of(lo + seq!['-'] + hi) matches Ok(seg) && (seg
                    matches Segment::Range(a, b) && a == l && b == h),
            },
        }),
{
    reveal_strlit("c");
    let whole = lo + seq!['-'] + hi;
    text::law_split_once(part, '-', lo, hi);
    assert(whole[lo.len() as int] == '-');
    assert("c"@.len() == 1 && "c"@[0] == 'c');
    lemma_number_bound(text::trim(lo), 0xFFFF_FFFF);
    lemma_number_bound(text::trim(hi), 0xFFFF_FFFF);
}

proof fn lemma_segments(parts: Seq<Seq<char>>, segs: Seq<Segment>, read: Seq<Segment>, k: int)
    requires
        0 <= k <= parts.len(),
        segs.len() == k,
        forall|i: int|
            0 <= i < k ==> segment_of(text::trim(#[trigger] parts[i])) == Ok::<
                Segment,
                SchemeErrorView,
            >(segs[i]),
        k < parts.len() ==> segment_of(text::trim(parts[k])) is Err,
    ensures
        segments_of(parts, read) == (if k == parts.len() {
            Ok::<Seq<Segment>, SchemeErrorView>(read + segs)
        } else {
            Err(segment_of(text::trim(parts[k]))->Err_0)
        }),
    decreases parts.len(),
{
    if k > 0 {
        let rest = parts.skip(1);
        assert(segment_of(text::trim(parts[0])) == Ok::<Segment, SchemeErrorView>(segs[0]));
        assert forall|i: int| 0 <= i < k - 1 implies segment_of(text::trim(#[trigger] rest[i]))
            == Ok::<Segment, SchemeErrorView>(segs.skip(1)[i]) by {
            assert(rest[i] == parts[i + 1]);
        }
        assert(k < parts.len() ==> rest[k - 1] == parts[k]);
        lemma_segments(rest, segs.skip(1), read.push(segs[0]), k - 1);
        assert(read.push(segs[0]) + segs.skip(1) =~= read + segs);
    } else {
        assert(read + segs =~= read);
    }
}

/// The segments of a rule are read one by one, all of them and in order; the
/// first that cannot be read decides the error. `k` is its position, or the
/// number of parts, and `segs` are those in front of it.
pub proof fn law_segments_are_read_in_order(parts: Seq<Seq<char>>, segs: Seq<Segment>, k: int)
    requires
        0 <= k <= parts.len(),
        segs.len() == k,
        forall|i: int|
            0 <= i < k ==> segment_of(text::trim(#[trigger] parts[i])) == Ok::<
                Segment,
                SchemeErrorView,
            >(segs[i]),
        k < parts.len() ==> segment_of(text::trim(parts[k])) is Err,
    ensures
        k == parts.len() ==> segments_of(parts, Seq::empty()) == Ok::<
            Seq<Segment>,
            SchemeErrorView,
        >(segs),
        k < parts.len() ==> segments_of(parts, Seq::empty()) == Err::<
            Seq<Segment>,
            SchemeErrorView,
        >(segment_of(text::trim(parts[k]))->Err_0),
{
    lemma_segments(parts, segs, Seq::empty(), k);
    assert(Seq::<Segment>::empty() + segs =~= segs);
}

/// What a line says: a number in front of the equals sign and segments behind
/// it give the rule for that write, in place of an earlier one; `stop` and a
/// number set the stop index. Nothing else changes, and what cannot be read is
/// reported.
pub proof fn law_lines_are_read(key: Seq<char>, value: Seq<char>, table: SchemeTable, n: u32)
    requires
        !key.contains('='),
    ensures
        ({
            let entry = line_entry(key + seq!['='] + value, table);
            &&& text::trim(key) == "stop"@ ==> (match text::number(
                text::trim(value),
                0xFFFF_FFFF,
            ) {
                Ok(m) => entry matches Ok(t) && t.stop == m && t.rules == table.rules,
                Err(e) => entry == Err::<SchemeTable, SchemeErrorView>(
                    SchemeErrorView::Number(e),
                ),
            })
            &&& text::trim(key) != "stop"@ ==> (text::number(text::trim(key), 0xFFFF_FFFF)
                matches Err(e) ==> entry == Err::<SchemeTable, SchemeErrorView>(
                SchemeErrorView::Number(e),
            ))
            &&& text::number(text::trim(key), 0xFFFF_FFFF) == Ok::<nat, NumberError>(
                n as nat,
            ) ==> (match segments_of(
                text::split(value, ','),
                Seq::empty(),
            ) {
                Ok(segs) => entry matches Ok(t) && t.stop == table.stop && t.rules
                    == table.rules.insert(n, segs),
                Err(e) => entry == Err::<SchemeTable, SchemeErrorView>(e),
            })
        }),
{
    let line = key + seq!['='] + value;
    text::law_split_once(line, '=', key, value);
    reveal_strlit("stop");
    text::law_number("stop"@, "stop"@, 0xFFFF_FFFF, 0);
    if text::trim(key) == "stop"@ {
        lemma_number_bound(text::trim(value), 0xFFFF_FFFF);
    }
}

proof fn lemma_digits_bound(s: Seq<char>, acc: nat, max: nat)
    requires
        acc <= max,
    ensures
        text::digits(s, acc, max) matches Ok(n) ==> n <= max,
    decreases s.len(),
{
    if s.len() > 0 && text::is_digit(s[0]) && acc * 10 + text::digit_value(s[0]) <= max {
        lemma_digits_bound(s.skip(1), acc * 10 + text::digit_value(s[0]), max);
    }
}

proof fn lemma_number_bound(s: Seq<char>, max: nat)
    ensures
        text::number(s, max) matches Ok(n) ==> n <= max,
{
    lemma_digits_bound(s, 0, max);
    lemma_digits_bound(s.skip(1), 0, max);
}

/// An empty line says nothing, and a line without an equals sign is refused as
/// it stands.
pub proof fn law_lines_without_key(line: Seq<char>, table: SchemeTable)
    requires
        !line.contains('='),
    ensures
        line.len() == 0 ==> line_entry(line, table) == Ok::<SchemeTable, SchemeErrorView>(table),
        line.len() > 0 ==> line_entry(line, table) == Err::<SchemeTable, SchemeErrorView>(
            SchemeErrorView::Line(line),
        ),
{
    text::law_split_once(line, '=', line, line);
}

/// Lines are read from first to last: each adds to what the lines in front of
/// it say, and none is read behind one that is at fault.
pub proof fn law_lines_in_order(lines: Seq<Seq<char>>, last: Seq<char>, table: SchemeTable)
    ensures
        entries(lines.push(last), table) == (match entries(lines, table) {
            Ok(t) => line_entry(text::trim(last), t),
            Err(e) => Err::<SchemeTable, SchemeErrorView>(e),
        }),
        entries(Seq::empty(), table) == Ok::<SchemeTable, SchemeErrorView>(table),
    decreases lines.len(),
{
    let all = lines.push(last);
    if lines.len() == 0 {
        assert(all.skip(1) =~= Seq::<Seq<char>>::empty());
        assert(all[0] == last);
        match line_entry(text::trim(last), table) {
            Ok(t) => {
                assert(entries(all.skip(1), t) == Ok::<SchemeTable, SchemeErrorView>(t));
            },
            Err(_) => {},
        }
    } else {
        assert(all.skip(1) =~= lines.skip(1).push(last));
        assert(all[0] == lines[0]);
        match line_entry(text::trim(lines[0]), table) {
            Ok(t) => {
                law_lines_in_order(lines.skip(1), last, t);
            },
            Err(_) => {},
        }
    }
}

/// A scheme text says what its lines say, read from a scheme that pads nothing.
pub proof fn law_scheme_is_its_lines(lines: Seq<Seq<char>>)
    requires
        lines.len() > 0,
        forall|i: int| 0 <= i < lines.len() ==> !(#[trigger] lines[i]).contains('\n'),
    ensures
        scheme_of(text::interleaved(lines, '\n')) == entries(
            lines,
            (SchemeTable { stop: 0, rules: Map::empty() }),
        ),
{
    text::law_split(lines, '\n');
}

/// A segment as it is written.
pub open spec fn segment_text(seg: Segment) -> Seq<char> {
    match seg {
        Segment::Range(lo, hi) => text::decimal(lo as nat) + seq!['-'] + text::decimal(hi as nat),
        Segment::Check => "c"@,
    }
}

/// The segments of a rule as they are written.
pub open spec fn segment_texts(segs: Seq<Segment>) -> Seq<Seq<char>> {
    segs.map_values(|s: Segment| segment_text(s))
}

/// The line for the rule of write `n`.
pub open spec fn rule_text(n: u32, segs: Seq<Segment>) -> Seq<char> {
    text::decimal(n as nat) + seq!['='] + text::interleaved(segment_texts(segs), ',')
}

/// The lines of a scheme.
pub open spec fn scheme_lines(stop: u32, rules: Seq<(u32, Seq<Segment>)>) -> Seq<Seq<char>>
    decreases rules.len(),
{
    if rules.len() == 0 {
        seq!["stop"@ + seq!['='] + text::decimal(stop as nat)]
    } else {
        scheme_lines(stop, rules.drop_last()).push(rule_text(rules.last().0, rules.last().1))
    }
}

/// The rules that are left where later ones replace earlier ones.
pub open spec fn last_rules(rules: Seq<(u32, Seq<Segment>)>) -> Map<u32, Seq<Segment>>
    decreases rules.len(),
{
    if rules.len() == 0 {
        Map::empty()
    } else {
        last_rules(rules.drop_last()).insert(rules.last().0, rules.last().1)
    }
}

/// Whether `s` holds nothing but digits, dashes, commas and check symbols.
spec fn plain(s: Seq<char>) -> bool {
    forall|i: int|
        0 <= i < s.len() ==> ('0' <= #[trigger] s[i] <= '9' || s[i] == '-' || s[i] == ',' || s[i]
            == 'c')
}

proof fn lemma_segment_text(seg: Segment)
    ensures
        segment_text(seg).len() > 0,
        plain(segment_text(seg)),
        !segment_text(seg).contains(','),
        segment_of(text::trim(segment_text(seg))) == Ok::<Segment, SchemeErrorView>(seg),
{
    let s = segment_text(seg);
    reveal_strlit("c");
    match seg {
        Segment::Range(lo, hi) => {
            let none = Seq::<char>::empty();
            let a = text::decimal(lo as nat);
            let b = text::decimal(hi as nat);
            text::law_decimal(lo as nat, 0);
            text::law_decimal(hi as nat, 0);
            law_range_is_read(lo, hi, none, none, none, none);
            assert(none + (a + none + seq!['-'] + (none + b)) + none =~= s);
            assert forall|i: int| 0 <= i < s.len() implies ('0' <= #[trigger] s[i] <= '9' || s[i]
                == '-') by {
                if i < a.len() {
                    assert(s[i] == a[i]);
                } else if i > a.len() {
                    assert(s[i] == b[i - a.len() - 1]);
                }
            }
        },
        Segment::Check => {
            law_range_is_read(0, 0, Seq::empty(), Seq::empty(), Seq::empty(), Seq::empty());
            text::lemma_trim_plain("c"@);
        },
    }
}

proof fn lemma_segments_text(segs: Seq<Segment>)
    requires
        segs.len() > 0,
    ensures
        text::interleaved(segment_texts(segs), ',').len() > 0,
        plain(text::interleaved(segment_texts(segs), ',')),
    decreases segs.len(),
{
    let parts = segment_texts(segs);
    lemma_segment_text(segs[0]);
    assert(parts[0] == segment_text(segs[0]));
    if segs.len() > 1 {
        let rest = text::interleaved(segment_texts(segs.skip(1)), ',');
        lemma_segments_text(segs.skip(1));
        assert(parts.skip(1) =~= segment_texts(segs.skip(1)));
        let all = parts[0] + seq![','] + rest;
        assert forall|i: int| 0 <= i < all.len() implies ('0' <= #[trigger] all[i] <= '9' || all[i]
            == '-' || all[i] == ',' || all[i] == 'c') by {
            if i < parts[0].len() {
                assert(all[i] == parts[0][i]);
            } else if i > parts[0].len() {
                assert(all[i] == rest[i - parts[0].len() - 1]);
            }
        }
    }
}

proof fn lemma_rule_text(n: u32, segs: Seq<Segment>, table: SchemeTable)
    requires
        segs.len() > 0,
    ensures
        line_entry(text::trim(rule_text(n, segs)), table) == Ok::<SchemeTable, SchemeErrorView>(
            SchemeTable { stop: table.stop, rules: table.rules.insert(n, segs) },
        ),
        !rule_text(n, segs).contains('\n'),
{
    let key = text::decimal(n as nat);
    let parts = segment_texts(segs);
    let value = text::interleaved(parts, ',');
    let line = rule_text(n, segs);
    text::law_decimal(n as nat, 0);
    lemma_segments_text(segs);
    assert forall|i: int| 0 <= i < line.len() implies #[trigger] line[i] != '\n' by {
        if i < key.len() {
            assert(line[i] == key[i]);
        } else if i > key.len() {
            assert(line[i] == value[i - key.len() - 1]);
        }
    }
    assert(line[0] == key[0]);
    assert(line.last() == value[value.len() - 1]);
    text::lemma_trim_plain(line);
    text::lemma_trim_plain(key);
    text::law_decimal(n as nat, 0xFFFF_FFFF);
    assert forall|i: int| 0 <= i < parts.len() implies !(#[trigger] parts[i]).contains(',')
        && segment_of(text::trim(parts[i])) == Ok::<Segment, SchemeErrorView>(segs[i]) by {
        lemma_segment_text(segs[i]);
    }
    text::law_split(parts, ',');
    law_segments_are_read_in_order(parts, segs, parts.len() as int);
    law_lines_are_read(key, value, table, n);
}

proof fn lemma_stop_text(stop: u32, table: SchemeTable)
    ensures
        line_entry(
            text::trim("stop"@ + seq!['='] + text::decimal(stop as nat)),
            table,
        ) == Ok::<SchemeTable, SchemeErrorView>(SchemeTable { stop, rules: table.rules }),
        !("stop"@ + seq!['='] + text::decimal(stop as nat)).contains('\n'),
{
    reveal_strlit("stop");
    let value = text::decimal(stop as nat);
    let line = "stop"@ + seq!['='] + value;
    text::law_decimal(stop as nat, 0xFFFF_FFFF);
    assert forall|i: int| 0 <= i < line.len() implies #[trigger] line[i] != '\n' by {
        if i > 4 {
            assert(line[i] == value[i - 5]);
        }
    }
    assert(line.last() == value[value.len() - 1]);
    text::lemma_trim_plain(line);
    text::lemma_trim_plain("stop"@);
    text::lemma_trim_plain(value);
    law_lines_are_read("stop"@, value, table, 0);
}

proof fn lemma_scheme_lines(stop: u32, rules: Seq<(u32, Seq<Segment>)>)
    requires
        forall|i: int| 0 <= i < rules.len() ==> (#[trigger] rules[i]).1.len() > 0,
    ensures
        scheme_lines(stop, rules).len() > 0,
        forall|i: int|
            0 <= i < scheme_lines(stop, rules).len() ==> !(#[trigger] scheme_lines(
                stop,
                rules,
            )[i]).contains('\n'),
        entries(
            scheme_lines(stop, rules),
            (SchemeTable { stop: 0, rules: Map::empty() }),
        ) == Ok::<SchemeTable, SchemeErrorView>(
            SchemeTable { stop, rules: last_rules(rules) },
        ),
    decreases rules.len(),
{
    let empty = SchemeTable { stop: 0, rules: Map::empty() };
    if rules.len() == 0 {
        let line = "stop"@ + seq!['='] + text::decimal(stop as nat);
        lemma_stop_text(stop, empty);
        law_lines_in_order(Seq::empty(), line, empty);
        assert(Seq::<Seq<char>>::empty().push(line) =~= seq![line]);
    } else {
        let front = rules.drop_last();
        let (n, segs) = rules.last();
        assert(rules[rules.len() - 1].1.len() > 0);
        assert forall|i: int| 0 <= i < front.len() implies (#[trigger] front[i]).1.len() > 0 by {
            assert(front[i] == rules[i]);
        }
        lemma_scheme_lines(stop, front);
        lemma_rule_text(n, segs, (SchemeTable { stop, rules: last_rules(front) }));
        law_lines_in_order(scheme_lines(stop, front), rule_text(n, segs), empty);
    }
}

/// A scheme that is written down reads back as itself: its stop index, and for
/// each write the rule that was given for it last.
pub proof fn law_scheme_reads_back(stop: u32, rules: Seq<(u32, Seq<Segment>)>)
    requires
        forall|i: int| 0 <= i < rules.len() ==> (#[trigger] rules[i]).1.len() > 0,
    ensures
        scheme_of(text::interleaved(scheme_lines(stop, rules), '\n')) == Ok::<
            SchemeTable,
            SchemeErrorView,
        >(SchemeTable { stop, rules: last_rules(rules) }),
{
    lemma_scheme_lines(stop, rules);
    law_scheme_is_its_lines(scheme_lines(stop, rules));
}

} // verus!
