//! A loaded recording: its header and one sample volume per recorded channel.
use vstd::prelude::*;

use crate::error::{LoadError, LoadErrorModel};
use crate::gain::{recording_gain_list, recording_gains};
use crate::header::{
    data_count, header_spec, is_data_name, is_data_subset, lines_view, parse_header, Header,
    HeaderModel, SubSet, SubSetModel,
};
use crate::text::{copy_range, lines_of, split_lines};
use crate::volume::{decode_samples, decode_span, ByteOrder, Volume, VolumeModel};

verus! {

/// The byte sequence `|^Data Set^|` that ends the text header.
pub open spec fn sentinel() -> Seq<u8> {
    seq![124u8, 94u8, 68u8, 97u8, 116u8, 97u8, 32u8, 83u8, 101u8, 116u8, 94u8, 124u8]
}

/// Length of the sentinel.
pub const SENTINEL_LEN: usize = 12;

/// Number of delimiter bytes between the sentinel and the binary segment.
pub const DELIMITER_LEN: usize = 3;

pub open spec fn sentinel_at(d: Seq<u8>, i: int) -> bool {
    0 <= i && i + 12 <= d.len() && d.subrange(i, i + 12) == sentinel()
}

/// Start of the first sentinel at or after `i`; `d.len()` if there is none.
pub open spec fn sentinel_from(d: Seq<u8>, i: int) -> int
    decreases d.len() - i,
{
    if i < 0 || i + 12 > d.len() {
        d.len() as int
    } else if sentinel_at(d, i) {
        i
    } else {
        sentinel_from(d, i + 1)
    }
}

/// Where the text header of `d` ends: the start of its first sentinel.
pub open spec fn header_end(d: Seq<u8>) -> int {
    sentinel_from(d, 0)
}

/// Number of payload bytes that a subset spans, given the number of
/// spatial positions.
pub open spec fn span_len(s: SubSetModel, points: nat) -> nat {
    (s.element_size as nat) * (s.sample_nums as nat) * points
}

/// Where the span of subset `k` starts within the binary segment: the sum of
/// the spans before it.
pub open spec fn span_offset(subs: Seq<SubSetModel>, points: nat, k: int) -> nat
    decreases k,
{
    if k <= 0 {
        0
    } else {
        span_offset(subs, points, k - 1) + span_len(subs[k - 1], points)
    }
}

/// The sum of all subsets' spans.
pub open spec fn total_span(subs: Seq<SubSetModel>, points: nat) -> nat {
    span_offset(subs, points, subs.len() as int)
}

/// Whether some data subset stores samples narrower than two bytes.
pub open spec fn has_narrow_data(subs: Seq<SubSetModel>) -> bool {
    exists|k: int|
        0 <= k < subs.len() && is_data_name(#[trigger] subs[k].name) && subs[k].element_size
            < 2
}

/// There are as many data positions as data subsets.
pub proof fn lemma_positions_count(subs: Seq<SubSetModel>)
    ensures
        data_positions(subs).len() == data_count(subs),
    decreases subs.len(),
{
    if subs.len() > 0 {
        lemma_positions_count(subs.drop_last());
    }
}

/// Positions, among `subs`, of the subsets that hold recorded data.
pub open spec fn data_positions(subs: Seq<SubSetModel>) -> Seq<int>
    decreases subs.len(),
{
    if subs.len() == 0 {
        seq![]
    } else {
        data_positions(subs.drop_last()) + if is_data_name(subs.last().name) {
            seq![subs.len() - 1]
        } else {
            seq![]
        }
    }
}

/// The volume that subset `k` holds: its span of `payload`, decoded.
pub open spec fn volume_of(
    payload: Seq<u8>,
    subs: Seq<SubSetModel>,
    rows: nat,
    cols: nat,
    order: ByteOrder,
    k: int,
) -> VolumeModel {
    let s = subs[k];
    let off = span_offset(subs, rows * cols, k);
    VolumeModel {
        rows,
        cols,
        depth: s.sample_nums as nat,
        samples: decode_span(
            payload.subrange(off as int, (off + span_len(s, rows * cols)) as int),
            s.element_size as nat,
            order,
        ),
    }
}

/// The volumes of the data subsets among the first `n`, decoded from their
/// spans of `payload`.
pub open spec fn volumes_upto(
    payload: Seq<u8>,
    subs: Seq<SubSetModel>,
    rows: nat,
    cols: nat,
    order: ByteOrder,
    n: int,
) -> Seq<VolumeModel>
    decreases n,
{
    if n <= 0 {
        seq![]
    } else {
        let prev = volumes_upto(payload, subs, rows, cols, order, n - 1);
        if is_data_name(subs[n - 1].name) {
            prev.push(volume_of(payload, subs, rows, cols, order, n - 1))
        } else {
            prev
        }
    }
}

/// Volume `c` among the first `n` subsets is the volume of the `c`-th data
/// subset among them.
pub proof fn lemma_volumes_upto_entry(
    payload: Seq<u8>,
    subs: Seq<SubSetModel>,
    rows: nat,
    cols: nat,
    order: ByteOrder,
    n: int,
)
    requires
        0 <= n <= subs.len(),
    ensures
        volumes_upto(payload, subs, rows, cols, order, n).len() == data_positions(
            subs.subrange(0, n),
        ).len(),
        forall|c: int|
            #![trigger volumes_upto(payload, subs, rows, cols, order, n)[c]]
            #![trigger data_positions(subs.subrange(0, n))[c]]
            0 <= c < volumes_upto(payload, subs, rows, cols, order, n).len() ==> {
                &&& 0 <= data_positions(subs.subrange(0, n))[c] < n
                &&& is_data_name(subs[data_positions(subs.subrange(0, n))[c]].name)
                &&& volumes_upto(payload, subs, rows, cols, order, n)[c] == volume_of(
                    payload,
                    subs,
                    rows,
                    cols,
                    order,
                    data_positions(subs.subrange(0, n))[c],
                )
            },
    decreases n,
{
    if n > 0 {
        lemma_volumes_upto_entry(payload, subs, rows, cols, order, n - 1);
        let t = subs.subrange(0, n);
        let prev_pos = data_positions(subs.subrange(0, n - 1));
        let prev = volumes_upto(payload, subs, rows, cols, order, n - 1);
        assert(t.drop_last() =~= subs.subrange(0, n - 1));
        assert(t.last() == subs[n - 1]);
        let pos = data_positions(t);
        let vols = volumes_upto(payload, subs, rows, cols, order, n);
        if is_data_name(subs[n - 1].name) {
            assert(pos =~= prev_pos.push(n - 1));
            assert(vols == prev.push(volume_of(payload, subs, rows, cols, order, n - 1)));
        } else {
            assert(pos =~= prev_pos);
            assert(vols == prev);
        }
        assert forall|c: int|
            #![trigger vols[c]]
            #![trigger pos[c]]
            0 <= c < vols.len() implies {
            &&& 0 <= pos[c] < n
            &&& is_data_name(subs[pos[c]].name)
            &&& vols[c] == volume_of(payload, subs, rows, cols, order, pos[c])
        } by {
            if c < prev.len() {
                assert(vols[c] == prev[c]);
                assert(pos[c] == prev_pos[c]);
                assert(0 <= prev_pos[c] < n - 1);
            } else {
                assert(is_data_name(subs[n - 1].name));
                assert(c == prev_pos.len());
                assert(pos[c] == n - 1);
            }
        }
        assert(pos == data_positions(subs.subrange(0, n)));
    } else {
        assert(volumes_upto(payload, subs, rows, cols, order, n) =~= Seq::<VolumeModel>::empty());
    }
}

pub struct UsDataModel {
    pub header: HeaderModel,
    pub volumes: Seq<VolumeModel>,
}

/// What loading `data` gives: the header, then the binary segment that
/// follows the sentinel and three delimiter bytes, split into one span per
/// subset, each data subset's span decoded into a volume.
pub open spec fn load_spec(data: Seq<u8>, order: ByteOrder) -> Result<UsDataModel, LoadErrorModel> {
    let h = header_end(data);
    if h + 12 > data.len() {
        Err(LoadErrorModel::HeaderNotFound)
    } else {
        match header_spec(lines_of(data.subrange(0, h)), recording_gains(data.subrange(0, h))) {
            Err(e) => Err(e),
            Ok(hm) => {
                let p = h + 15;
                let rows = hm.samples_y as nat;
                let cols = hm.samples_x as nat;
                if p > data.len() || total_span(hm.sub_sets, rows * cols) != data.len() - p {
                    Err(LoadErrorModel::StructuralMismatch)
                } else if has_narrow_data(hm.sub_sets) {
                    Err(LoadErrorModel::UnsupportedSampleWidth)
                } else {
                    Ok(
                        UsDataModel {
                            header: hm,
                            volumes: volumes_upto(
                                data.subrange(p, data.len() as int),
                                hm.sub_sets,
                                rows,
                                cols,
                                order,
                                hm.sub_sets.len() as int,
                            ),
                        },
                    )
                }
            },
        }
    }
}

/// A loaded recording.
#[derive(Debug)]
pub struct UsData {
    /// The recording's header
    pub header: Header,
    /// Recorded channels with their samples
    pub datasets: Vec<Volume>,
}

impl View for UsData {
    type V = UsDataModel;

    open spec fn view(&self) -> UsDataModel {
        UsDataModel {
            header: self.header@,
            volumes: self.datasets@.map_values(|v: Volume| v@),
        }
    }
}

/// Whether the sentinel starts at `data[i]`.
fn sentinel_starts_at(data: &[u8], i: usize) -> (r: bool)
    requires
        i + 12 <= data@.len(),
    ensures
        r == sentinel_at(data@, i as int),
{
    let pat: Vec<u8> = vec![124u8, 94u8, 68u8, 97u8, 116u8, 97u8, 32u8, 83u8, 101u8, 116u8, 94u8, 124u8];
    assert(pat@ =~= sentinel());
    let len: usize = data.len();
    let mut k: usize = 0;
    while k < SENTINEL_LEN
        invariant
            len == data@.len(),
            i + 12 <= data@.len(),
            pat@ == sentinel(),
            k <= 12,
            forall|j: int| 0 <= j < k ==> data@[i + j] == #[trigger] pat@[j],
        decreases 12 - k,
    {
        if data[i + k] != pat[k] {
            assert(data@.subrange(i as int, i + 12)[k as int] != sentinel()[k as int]);
            return false;
        }
        k = k + 1;
    }
    assert(data@.subrange(i as int, i + 12) =~= sentinel());
    true
}

/// Finds where the text header ends (see `header_end`).
pub fn find_header_end(data: &[u8]) -> (r: Option<usize>)
    ensures
        r matches Some(h) ==> h == header_end(data@) && h + 12 <= data@.len(),
        r is None ==> header_end(data@) + 12 > data@.len(),
{
    let mut i: usize = 0;
    while i < data.len() && data.len() - i >= SENTINEL_LEN
        invariant
            header_end(data@) == sentinel_from(data@, i as int),
            i <= data@.len(),
        decreases data@.len() - i,
    {
        if sentinel_starts_at(data, i) {
            return Some(i);
        }
        i = i + 1;
    }
    None
}

proof fn lemma_span_offset_mono(subs: Seq<SubSetModel>, points: nat, j: int, k: int)
    requires
        0 <= j <= k,
    ensures
        span_offset(subs, points, j) <= span_offset(subs, points, k),
    decreases k - j,
{
    if j < k {
        lemma_span_offset_mono(subs, points, j, k - 1);
    }
}

/// Whether the subsets' spans add up to exactly `avail` bytes.
fn spans_fill(subs: &Vec<SubSet>, points: u64, avail: usize) -> (r: bool)
    requires
        points <= 4294967296,
    ensures
        r == (total_span(subs@.map_values(|s: SubSet| s@), points as nat) == avail),
{
    let ghost sv = subs@.map_values(|s: SubSet| s@);
    let mut total: u128 = 0;
    let mut k: usize = 0;
    while k < subs.len()
        invariant
            sv == subs@.map_values(|s: SubSet| s@),
            points <= 4294967296,
            k <= subs@.len(),
            total == span_offset(sv, points as nat, k as int),
            total <= avail,
        decreases subs@.len() - k,
    {
        let s = &subs[k];
        assert(s@ == sv[k as int]);
        let es: u128 = s.element_size as u128;
        let sn: u128 = s.sample_nums as u128;
        assert(es * sn <= 255 * 4294967295) by (nonlinear_arith)
            requires
                es <= 255,
                sn <= 4294967295,
        ;
        assert(es * sn * points <= 255 * 4294967295 * 4294967296) by (nonlinear_arith)
            requires
                es * sn <= 255 * 4294967295,
                points <= 4294967296,
        ;
        let span: u128 = es * sn * points as u128;
        assert(span == span_len(sv[k as int], points as nat));
        total = total + span;
        k = k + 1;
        if total > avail as u128 {
            proof {
                lemma_span_offset_mono(sv, points as nat, k as int, sv.len() as int);
            }
            return false;
        }
    }
    total == avail as u128
}

/// Whether some data subset stores samples narrower than two bytes.
fn find_narrow_data(subs: &Vec<SubSet>) -> (r: bool)
    ensures
        r == has_narrow_data(subs@.map_values(|s: SubSet| s@)),
{
    let ghost sv = subs@.map_values(|s: SubSet| s@);
    let mut k: usize = 0;
    while k < subs.len()
        invariant
            sv == subs@.map_values(|s: SubSet| s@),
            k <= subs@.len(),
            forall|j: int|
                0 <= j < k ==> !(is_data_name(#[trigger] sv[j].name) && sv[j].element_size < 2),
        decreases subs@.len() - k,
    {
        let data = is_data_subset(subs[k].name.as_str());
        if data && subs[k].element_size < 2 {
            assert(is_data_name(sv[k as int].name) && sv[k as int].element_size < 2);
            return true;
        }
        k = k + 1;
    }
    false
}

proof fn lemma_volume_count(
    payload: Seq<u8>,
    subs: Seq<SubSetModel>,
    rows: nat,
    cols: nat,
    order: ByteOrder,
    n: int,
)
    requires
        0 <= n <= subs.len(),
    ensures
        volumes_upto(payload, subs, rows, cols, order, n).len() == data_count(
            subs.subrange(0, n),
        ),
    decreases n,
{
    if n > 0 {
        lemma_volume_count(payload, subs, rows, cols, order, n - 1);
        assert(subs.subrange(0, n).drop_last() =~= subs.subrange(0, n - 1));
    }
}

/// Decodes the volume of every data subset from its span of `data[p..]`.
fn decode_volumes(
    data: &[u8],
    p: usize,
    subs: &Vec<SubSet>,
    rows: usize,
    cols: usize,
    order: ByteOrder,
) -> (r: Vec<Volume>)
    requires
        p <= data@.len(),
        rows <= 65535,
        cols <= 65535,
        total_span(subs@.map_values(|s: SubSet| s@), (rows * cols) as nat) == data@.len() - p,
        !has_narrow_data(subs@.map_values(|s: SubSet| s@)),
    ensures
        r@.map_values(|v: Volume| v@) == volumes_upto(
            data@.subrange(p as int, data@.len() as int),
            subs@.map_values(|s: SubSet| s@),
            rows as nat,
            cols as nat,
            order,
            subs@.len() as int,
        ),
        forall|c: int|
            0 <= c < r@.len() ==> {
                &&& (#[trigger] r@[c])@.wf()
                &&& r@[c].rows == rows
                &&& r@[c].cols == cols
            },
{
    let ghost sv = subs@.map_values(|s: SubSet| s@);
    let ghost payload = data@.subrange(p as int, data@.len() as int);
    let ghost pts: nat = (rows * cols) as nat;
    let len: usize = data.len();
    let avail: usize = len - p;
    assert(rows * cols <= 65535 * 65535) by (nonlinear_arith)
        requires
            rows <= 65535,
            cols <= 65535,
    ;
    let points: u128 = rows as u128 * cols as u128;
    let mut r: Vec<Volume> = Vec::new();
    let mut off: usize = 0;
    let mut k: usize = 0;
    while k < subs.len()
        invariant
            sv == subs@.map_values(|s: SubSet| s@),
            payload == data@.subrange(p as int, data@.len() as int),
            len == data@.len(),
            p <= len,
            avail == len - p,
            pts == rows * cols,
            points == pts,
            points <= 65535 * 65535,
            total_span(sv, pts) == avail,
            !has_narrow_data(sv),
            k <= subs@.len(),
            off == span_offset(sv, pts, k as int),
            off <= avail,
            r@.map_values(|v: Volume| v@) == volumes_upto(
                payload,
                sv,
                rows as nat,
                cols as nat,
                order,
                k as int,
            ),
            forall|c: int|
                0 <= c < r@.len() ==> {
                    &&& (#[trigger] r@[c])@.wf()
                    &&& r@[c].rows == rows
                    &&& r@[c].cols == cols
                },
        decreases subs@.len() - k,
    {
        let s = &subs[k];
        assert(s@ == sv[k as int]);
        proof {
            lemma_span_offset_mono(sv, pts, k as int + 1, sv.len() as int);
        }
        let es: u128 = s.element_size as u128;
        let sn: u128 = s.sample_nums as u128;
        assert(es * sn <= 255 * 4294967295) by (nonlinear_arith)
            requires
                es <= 255,
                sn <= 4294967295,
        ;
        assert(es * sn * points <= 255 * 4294967295 * (65535 * 65535)) by (nonlinear_arith)
            requires
                es * sn <= 255 * 4294967295,
                points <= 65535 * 65535,
        ;
        let span128: u128 = es * sn * points;
        assert(span128 == span_len(sv[k as int], pts));
        let span: usize = span128 as usize;
        let ghost before = r@.map_values(|v: Volume| v@);
        if is_data_subset(s.name.as_str()) {
            assert(is_data_name(sv[k as int].name));
            assert(s.element_size >= 2);
            let samples = decode_samples(data, p + off, span, s.element_size as usize, order);
            assert(data@.subrange((p + off) as int, p + off + span) =~= payload.subrange(
                off as int,
                off + span,
            ));
            proof {
                let e = es as int;
                let m = (sn * points) as int;
                assert(span as int == e * m) by (nonlinear_arith)
                    requires
                        span == es * sn * points,
                        e == es,
                        m == sn * points,
                ;
                vstd::arithmetic::div_mod::lemma_div_multiples_vanish(m, e);
                assert(samples@.len() == m);
                assert(m == rows * cols * sn) by (nonlinear_arith)
                    requires
                        m == sn * points,
                        points == rows * cols,
                ;
            }
            let v = Volume { rows, cols, depth: s.sample_nums as usize, samples };
            r.push(v);
            assert(r@.map_values(|v: Volume| v@) =~= before.push(v@));
        }
        off = off + span;
        k = k + 1;
    }
    r
}

impl UsData {
    /// The recording's channels match its header: one volume per data subset,
    /// each spanning the scanned area.
    pub open spec fn wf(self) -> bool {
        &&& self.datasets@.len() == self.header.channels
        &&& self.header.channels as nat == data_count(self.header@.sub_sets)
        &&& forall|c: int|
            0 <= c < self.datasets@.len() ==> {
                &&& (#[trigger] self.datasets@[c])@.wf()
                &&& self.datasets@[c].rows == self.header.samples_y
                &&& self.datasets@[c].cols == self.header.samples_x
                &&& self.datasets@[c].depth == self.header@.sub_sets[data_positions(
                    self.header@.sub_sets,
                )[c]].sample_nums
            }
    }

    /// Loads a recording whose samples are stored in the given byte order
    /// (see `load_spec`). A failed load builds no partial dataset.
    pub fn load(data: &[u8], order: ByteOrder) -> (r: Result<UsData, LoadError>)
        ensures
            r matches Ok(u) ==> load_spec(data@, order) == Ok::<UsDataModel, LoadErrorModel>(u@)
                && u.wf(),
            r matches Err(e) ==> load_spec(data@, order) == Err::<UsDataModel, LoadErrorModel>(
                e@,
            ),
    {
        let h = match find_header_end(data) {
            Some(h) => h,
            None => return Err(LoadError::HeaderNotFound),
        };
        let head = copy_range(data, 0, h);
        let gains = recording_gain_list(head.as_slice());
        let lines = split_lines(head.as_slice());
        assert(lines_view(lines@) =~= lines_of(data@.subrange(0, h as int)));
        let header = match parse_header(&lines, &gains) {
            Ok(v) => v,
            Err(e) => return Err(e),
        };
        let len: usize = data.len();
        if len - h < SENTINEL_LEN + DELIMITER_LEN {
            return Err(LoadError::StructuralMismatch);
        }
        let p: usize = h + SENTINEL_LEN + DELIMITER_LEN;
        let rows: usize = header.samples_y as usize;
        let cols: usize = header.samples_x as usize;
        assert(rows * cols <= 65535 * 65535) by (nonlinear_arith)
            requires
                rows <= 65535,
                cols <= 65535,
        ;
        let points: u64 = rows as u64 * cols as u64;
        if !spans_fill(&header.sub_sets, points, len - p) {
            return Err(LoadError::StructuralMismatch);
        }
        if find_narrow_data(&header.sub_sets) {
            return Err(LoadError::UnsupportedSampleWidth);
        }
        let datasets = decode_volumes(data, p, &header.sub_sets, rows, cols, order);
        proof {
            let sv = header.sub_sets@.map_values(|s: SubSet| s@);
            lemma_volume_count(
                data@.subrange(p as int, data@.len() as int),
                sv,
                rows as nat,
                cols as nat,
                order,
                sv.len() as int,
            );
            assert(sv.subrange(0, sv.len() as int) =~= sv);
            lemma_volumes_upto_entry(
                data@.subrange(p as int, data@.len() as int),
                sv,
                rows as nat,
                cols as nat,
                order,
                sv.len() as int,
            );
            assert forall|c: int| 0 <= c < datasets@.len() implies (#[trigger] datasets@[c]).depth
                == sv[data_positions(sv)[c]].sample_nums by {
                assert(datasets@[c]@ == datasets@.map_values(|v: Volume| v@)[c]);
            }
            crate::header::lemma_data_count_bound(sv);
            assert(header@.sub_sets == sv);
        }
        let u = UsData { header, datasets };
        Ok(u)
    }

    /// Loads a recording whose samples are stored big-endian.
    pub fn load_sonoware(data: Vec<u8>) -> (r: Result<UsData, LoadError>)
        ensures
            r matches Ok(u) ==> load_spec(data@, ByteOrder::BigEndian) == Ok::<
                UsDataModel,
                LoadErrorModel,
            >(u@) && u.wf(),
            r matches Err(e) ==> load_spec(data@, ByteOrder::BigEndian) == Err::<
                UsDataModel,
                LoadErrorModel,
            >(e@),
    {
        UsData::load(data.as_slice(), ByteOrder::BigEndian)
    }
}

/// A recording that loads has subset spans that add up to exactly the length
/// of its binary segment; one whose header reads but whose spans add up to
/// anything else is rejected as a structural mismatch, before any volume is
/// built.
pub proof fn lemma_spans_cover_payload(data: Seq<u8>, order: ByteOrder)
    ensures
        load_spec(data, order) matches Ok(u) ==> header_end(data) + 15 <= data.len()
            && total_span(u.header.sub_sets, (u.header.samples_y as nat) * (u.header.samples_x as nat))
            == data.len() - (header_end(data) + 15),
        ({
            let h = header_end(data);
            h + 12 <= data.len() && (header_spec(lines_of(data.subrange(0, h)), recording_gains(data.subrange(0, h)))
                matches Ok(hm) && (h + 15 > data.len() || total_span(
                hm.sub_sets,
                (hm.samples_y as nat) * (hm.samples_x as nat),
            ) != data.len() - (h + 15)))
        }) ==> load_spec(data, order) == Err::<UsDataModel, LoadErrorModel>(
            LoadErrorModel::StructuralMismatch,
        ),
{
}

/// What the host reports about its dataset slot: whether a recording is loaded.
pub fn get_state(dataset: &Option<UsData>) -> (r: &'static str)
    ensures
        dataset is Some ==> r@ == "loaded data"@,
        dataset is None ==> r@ == "free storage"@,
{
    match dataset {
        Some(_) => "loaded data",
        None => "free storage",
    }
}

/// Each volume of a loaded recording is the decoded span of the matching data
/// subset: volume `c` comes from the `c`-th subset whose name marks recorded
/// data, has `samples_y` rows, `samples_x` columns and that subset's depth, and
/// holds the samples of that subset's span of the binary segment.
pub proof fn lemma_loaded_volume(data: Seq<u8>, order: ByteOrder, c: int)
    requires
        load_spec(data, order) is Ok,
    ensures
        ({
            let u = load_spec(data, order)->Ok_0;
            let subs = u.header.sub_sets;
            let k = data_positions(subs)[c];
            &&& u.volumes.len() == data_positions(subs).len()
            &&& 0 <= c < u.volumes.len() ==> {
                &&& 0 <= k < subs.len()
                &&& is_data_name(subs[k].name)
                &&& u.volumes[c] == volume_of(
                    data.subrange(header_end(data) + 15, data.len() as int),
                    subs,
                    u.header.samples_y as nat,
                    u.header.samples_x as nat,
                    order,
                    k,
                )
            }
        }),
{
    let u = load_spec(data, order)->Ok_0;
    let subs = u.header.sub_sets;
    let payload = data.subrange(header_end(data) + 15, data.len() as int);
    lemma_volumes_upto_entry(
        payload,
        subs,
        u.header.samples_y as nat,
        u.header.samples_x as nat,
        order,
        subs.len() as int,
    );
    assert(subs.subrange(0, subs.len() as int) =~= subs);
}

/// A recording loads exactly when its sentinel is found, its header reads,
/// the subsets' spans add up to exactly the bytes after the sentinel and
/// delimiter, and no data subset stores samples narrower than two bytes.
pub proof fn lemma_load_succeeds_iff(data: Seq<u8>, order: ByteOrder)
    ensures
        load_spec(data, order) is Ok <==> ({
            let h = header_end(data);
            &&& h + 15 <= data.len()
            &&& header_spec(lines_of(data.subrange(0, h)), recording_gains(data.subrange(0, h))) is Ok
            &&& ({
                let hm = header_spec(
                    lines_of(data.subrange(0, h)),
                    recording_gains(data.subrange(0, h)),
                )->Ok_0;
                &&& total_span(hm.sub_sets, (hm.samples_y as nat) * (hm.samples_x as nat))
                    == data.len() - (h + 15)
                &&& !has_narrow_data(hm.sub_sets)
            })
        }),
{
}

proof fn lemma_sentinel_from_lower(b: Seq<u8>, i: int)
    requires
        0 <= i,
    ensures
        i <= sentinel_from(b, i) || sentinel_from(b, i) == b.len(),
        0 <= sentinel_from(b, i),
    decreases b.len() - i,
{
    if i + 12 <= b.len() && !sentinel_at(b, i) {
        lemma_sentinel_from_lower(b, i + 1);
    }
}

proof fn lemma_sentinel_from_prefix(b1: Seq<u8>, b2: Seq<u8>, i: int, m: int)
    requires
        0 <= i,
        m <= b1.len(),
        m <= b2.len(),
        b1.subrange(0, m) == b2.subrange(0, m),
        sentinel_from(b1, i) + 12 <= m,
    ensures
        sentinel_from(b2, i) == sentinel_from(b1, i),
    decreases b1.len() - i,
{
    lemma_sentinel_from_lower(b1, i);
    if i + 12 <= m {
        assert(b1.subrange(i, i + 12) =~= b1.subrange(0, m).subrange(i, i + 12));
        assert(b2.subrange(i, i + 12) =~= b2.subrange(0, m).subrange(i, i + 12));
        if !sentinel_at(b1, i) {
            lemma_sentinel_from_prefix(b1, b2, i + 1, m);
        }
    }
}

/// The structural check depends on the header and the payload's length
/// alone: two recordings that agree up to the end of the delimiter and have
/// equally long payloads, whose spans do not fill that length, are both
/// rejected as a structural mismatch, whatever their payload bytes.
pub proof fn lemma_mismatch_ignores_payload_bytes(b1: Seq<u8>, b2: Seq<u8>, order: ByteOrder)
    requires
        header_end(b1) + 15 <= b1.len(),
        b1.len() == b2.len(),
        b1.subrange(0, header_end(b1) + 15) == b2.subrange(0, header_end(b1) + 15),
        header_spec(
            lines_of(b1.subrange(0, header_end(b1))),
            recording_gains(b1.subrange(0, header_end(b1))),
        ) matches Ok(hm) && total_span(hm.sub_sets, (hm.samples_y as nat) * (hm.samples_x as nat))
            != b1.len() - (header_end(b1) + 15),
    ensures
        load_spec(b1, order) == Err::<UsDataModel, LoadErrorModel>(
            LoadErrorModel::StructuralMismatch,
        ),
        load_spec(b2, order) == Err::<UsDataModel, LoadErrorModel>(
            LoadErrorModel::StructuralMismatch,
        ),
{
    let h = header_end(b1);
    let m = h + 15;
    lemma_sentinel_from_lower(b1, 0);
    lemma_sentinel_from_prefix(b1, b2, 0, m);
    assert(b1.subrange(0, h) =~= b1.subrange(0, m).subrange(0, h));
    assert(b2.subrange(0, h) =~= b2.subrange(0, m).subrange(0, h));
}

} // verus!
