//! The text header of a recording: global settings and the list of subsets.
use vstd::prelude::*;
use vstd::utf8::{decode_utf8, valid_utf8};

use crate::error::{LoadError, LoadErrorModel};
use crate::number::{float_syntax, is_float_text};
use crate::outside::text_of;
use crate::text::{byte_entry, entry_bytes, parse_unsigned, parse_unsigned_spec};

verus! {

/// Information about one subset of the recorded data.
#[derive(Debug)]
pub struct SubSet {
    /// Subset name
    pub name: String,
    /// Size of one sample in bytes
    pub element_size: u8,
    /// Number of samples along the depth axis
    pub sample_nums: u32,
    /// Position of the first sample, as written in the header, unit removed
    pub min_sample_pos: String,
    /// Distance between two samples, as written in the header, unit removed
    pub sample_resolution: String,
    /// Gain of this subset in decibels
    pub gain: u64,
}

pub struct SubSetModel {
    pub name: Seq<char>,
    pub element_size: u8,
    pub sample_nums: u32,
    pub min_sample_pos: Seq<char>,
    pub sample_resolution: Seq<char>,
    pub gain: u64,
}

impl View for SubSet {
    type V = SubSetModel;

    open spec fn view(&self) -> SubSetModel {
        SubSetModel {
            name: self.name@,
            element_size: self.element_size,
            sample_nums: self.sample_nums,
            min_sample_pos: self.min_sample_pos@,
            sample_resolution: self.sample_resolution@,
            gain: self.gain,
        }
    }
}

/// The header of a loaded recording.
#[derive(Debug)]
pub struct Header {
    /// Data format used for recording the data
    pub format: String,
    /// Version of the data format
    pub version: String,
    /// Number of axes
    pub axes: u8,
    /// Distance between two columns, as written in the header, unit removed
    pub res_x: String,
    /// Distance between two rows, as written in the header, unit removed
    pub res_y: String,
    /// Number of samples in horizontal direction
    pub samples_x: u16,
    /// Number of samples in vertical direction
    pub samples_y: u16,
    /// The subsets, in the order of their payloads
    pub sub_sets: Vec<SubSet>,
    /// Number of recorded channels
    pub channels: u8,
    /// Largest number of samples along the depth axis
    pub samples: u32,
}

pub struct HeaderModel {
    pub format: Seq<char>,
    pub version: Seq<char>,
    pub axes: u8,
    pub res_x: Seq<char>,
    pub res_y: Seq<char>,
    pub samples_x: u16,
    pub samples_y: u16,
    pub sub_sets: Seq<SubSetModel>,
    pub channels: u8,
    pub samples: u32,
}

impl View for Header {
    type V = HeaderModel;

    open spec fn view(&self) -> HeaderModel {
        HeaderModel {
            format: self.format@,
            version: self.version@,
            axes: self.axes,
            res_x: self.res_x@,
            res_y: self.res_y@,
            samples_x: self.samples_x,
            samples_y: self.samples_y,
            sub_sets: self.sub_sets@.map_values(|s: SubSet| s@),
            channels: self.channels,
            samples: self.samples,
        }
    }
}

/// Number of header lines before the first subset record.
pub const SUBSET_FIRST_LINE: usize = 14;

/// Number of header lines that one subset record spans.
pub const SUBSET_STRIDE: usize = 12;

/// Whether a subset's name marks it as recorded data.
pub open spec fn is_data_name(name: Seq<char>) -> bool {
    exists|i: int|
        0 <= i && i + 4 <= name.len() && #[trigger] name.subrange(i, i + 4) == seq![
            'D',
            'a',
            't',
            'a',
        ]
}

/// Number of subsets among `subs` that hold recorded data.
pub open spec fn data_count(subs: Seq<SubSetModel>) -> nat
    decreases subs.len(),
{
    if subs.len() == 0 {
        0
    } else {
        data_count(subs.drop_last()) + if is_data_name(subs.last().name) {
            1nat
        } else {
            0nat
        }
    }
}

/// Largest `sample_nums` among `subs`, 0 for none.
pub open spec fn max_samples(subs: Seq<SubSetModel>) -> u32
    decreases subs.len(),
{
    if subs.len() == 0 {
        0
    } else {
        let m = max_samples(subs.drop_last());
        if subs.last().sample_nums > m {
            subs.last().sample_nums
        } else {
            m
        }
    }
}

/// The gain recorded for subset `i`; zero where the gain list has none.
pub open spec fn gain_at(gains: Seq<u64>, i: int) -> u64 {
    if 0 <= i < gains.len() {
        gains[i]
    } else {
        0
    }
}

/// A text field: the value of line `k`, as UTF-8.
pub open spec fn text_field(lines: Seq<Seq<u8>>, k: int) -> Result<Seq<char>, LoadErrorModel> {
    if k >= lines.len() {
        Err(LoadErrorModel::HeaderFieldParseError { line: k, value: seq![] })
    } else if valid_utf8(byte_entry(lines[k])) {
        Ok(decode_utf8(byte_entry(lines[k])))
    } else {
        Err(LoadErrorModel::HeaderFieldParseError { line: k, value: byte_entry(lines[k]) })
    }
}

/// An unsigned integer field no larger than `max`, on line `k`.
pub open spec fn uint_field(lines: Seq<Seq<u8>>, k: int, max: nat) -> Result<nat, LoadErrorModel> {
    if k >= lines.len() {
        Err(LoadErrorModel::HeaderFieldParseError { line: k, value: seq![] })
    } else {
        match parse_unsigned_spec(byte_entry(lines[k]), max) {
            Some(v) => Ok(v),
            None => Err(
                LoadErrorModel::HeaderFieldParseError { line: k, value: byte_entry(lines[k]) },
            ),
        }
    }
}

/// A measurement field on line `k`: its value without the three characters
/// of its unit, which must be a decimal floating-point number.
pub open spec fn measure_field(lines: Seq<Seq<u8>>, k: int) -> Result<Seq<char>, LoadErrorModel> {
    if k >= lines.len() {
        Err(LoadErrorModel::HeaderFieldParseError { line: k, value: seq![] })
    } else {
        let e = byte_entry(lines[k]);
        let v = e.subrange(0, e.len() - 3);
        if e.len() >= 3 && float_syntax(v) && valid_utf8(v) {
            Ok(decode_utf8(v))
        } else {
            Err(LoadErrorModel::HeaderFieldParseError { line: k, value: e })
        }
    }
}

/// The record of subset `i`, read from its five lines.
pub open spec fn subset_field(lines: Seq<Seq<u8>>, gains: Seq<u64>, i: int) -> Result<
    SubSetModel,
    LoadErrorModel,
> {
    let base = 14 + 12 * i;
    match text_field(lines, base) {
        Err(e) => Err(e),
        Ok(name) => match uint_field(lines, base + 1, 255) {
            Err(e) => Err(e),
            Ok(element_size) => match uint_field(lines, base + 3, 4294967295) {
                Err(e) => Err(e),
                Ok(sample_nums) => match measure_field(lines, base + 4) {
                    Err(e) => Err(e),
                    Ok(min_sample_pos) => match measure_field(lines, base + 5) {
                        Err(e) => Err(e),
                        Ok(sample_resolution) => Ok(
                            SubSetModel {
                                name,
                                element_size: element_size as u8,
                                sample_nums: sample_nums as u32,
                                min_sample_pos,
                                sample_resolution,
                                gain: gain_at(gains, i),
                            },
                        ),
                    },
                },
            },
        },
    }
}

/// The records of the first `n` subsets, or the first error among them.
pub open spec fn subsets_field(lines: Seq<Seq<u8>>, gains: Seq<u64>, n: nat) -> Result<
    Seq<SubSetModel>,
    LoadErrorModel,
>
    decreases n,
{
    if n == 0 {
        Ok(seq![])
    } else {
        match subsets_field(lines, gains, (n - 1) as nat) {
            Err(e) => Err(e),
            Ok(prev) => match subset_field(lines, gains, n - 1) {
                Err(e) => Err(e),
                Ok(s) => Ok(prev.push(s)),
            },
        }
    }
}

/// The header that `lines` describe, with `gains[i]` the gain of subset `i`;
/// or the first field, in reading order, that is missing or malformed.
pub open spec fn header_spec(lines: Seq<Seq<u8>>, gains: Seq<u64>) -> Result<
    HeaderModel,
    LoadErrorModel,
> {
    match text_field(lines, 0) {
        Err(e) => Err(e),
        Ok(format) => match text_field(lines, 1) {
            Err(e) => Err(e),
            Ok(version) => match uint_field(lines, 3, 255) {
                Err(e) => Err(e),
                Ok(axes) => match uint_field(lines, 4, 255) {
                    Err(e) => Err(e),
                    Ok(n) => match measure_field(lines, 8) {
                        Err(e) => Err(e),
                        Ok(res_x) => match measure_field(lines, 12) {
                            Err(e) => Err(e),
                            Ok(res_y) => match uint_field(lines, 6, 65535) {
                                Err(e) => Err(e),
                                Ok(samples_x) => match uint_field(lines, 10, 65535) {
                                    Err(e) => Err(e),
                                    Ok(samples_y) => match subsets_field(lines, gains, n) {
                                        Err(e) => Err(e),
                                        Ok(subs) => Ok(
                                            HeaderModel {
                                                format,
                                                version,
                                                axes: axes as u8,
                                                res_x,
                                                res_y,
                                                samples_x: samples_x as u16,
                                                samples_y: samples_y as u16,
                                                sub_sets: subs,
                                                channels: data_count(subs) as u8,
                                                samples: max_samples(subs),
                                            },
                                        ),
                                    },
                                },
                            },
                        },
                    },
                },
            },
        },
    }
}

/// The lines of the header, as byte strings.
pub open spec fn lines_view(lines: Seq<Vec<u8>>) -> Seq<Seq<u8>> {
    lines.map_values(|l: Vec<u8>| l@)
}

fn read_text(lines: &Vec<Vec<u8>>, k: usize) -> (r: Result<String, LoadError>)
    ensures
        r matches Ok(s) ==> text_field(lines_view(lines@), k as int) == Ok::<
            Seq<char>,
            LoadErrorModel,
        >(s@),
        r matches Err(e) ==> text_field(lines_view(lines@), k as int) == Err::<
            Seq<char>,
            LoadErrorModel,
        >(e@),
{
    if k >= lines.len() {
        return Err(LoadError::HeaderFieldParseError { line: k, value: Vec::new() });
    }
    let e = entry_bytes(lines[k].as_slice());
    match text_of(e.as_slice()) {
        Some(s) => Ok(s),
        None => Err(LoadError::HeaderFieldParseError { line: k, value: e }),
    }
}

fn read_uint(lines: &Vec<Vec<u8>>, k: usize, max: u64) -> (r: Result<u64, LoadError>)
    ensures
        r matches Ok(v) ==> uint_field(lines_view(lines@), k as int, max as nat)
            == Ok::<nat, LoadErrorModel>(v as nat),
        r matches Err(e) ==> uint_field(lines_view(lines@), k as int, max as nat)
            == Err::<nat, LoadErrorModel>(e@),
{
    if k >= lines.len() {
        return Err(LoadError::HeaderFieldParseError { line: k, value: Vec::new() });
    }
    let e = entry_bytes(lines[k].as_slice());
    match parse_unsigned(e.as_slice(), max) {
        Some(v) => Ok(v),
        None => Err(LoadError::HeaderFieldParseError { line: k, value: e }),
    }
}

fn read_measure(lines: &Vec<Vec<u8>>, k: usize) -> (r: Result<String, LoadError>)
    ensures
        r matches Ok(s) ==> measure_field(lines_view(lines@), k as int) == Ok::<
            Seq<char>,
            LoadErrorModel,
        >(s@),
        r matches Err(e) ==> measure_field(lines_view(lines@), k as int) == Err::<
            Seq<char>,
            LoadErrorModel,
        >(e@),
{
    if k >= lines.len() {
        return Err(LoadError::HeaderFieldParseError { line: k, value: Vec::new() });
    }
    let e = entry_bytes(lines[k].as_slice());
    if e.len() < 3 {
        return Err(LoadError::HeaderFieldParseError { line: k, value: e });
    }
    let v = crate::text::copy_range(e.as_slice(), 0, e.len() - 3);
    if !is_float_text(v.as_slice()) {
        return Err(LoadError::HeaderFieldParseError { line: k, value: e });
    }
    match text_of(v.as_slice()) {
        Some(s) => Ok(s),
        None => Err(LoadError::HeaderFieldParseError { line: k, value: e }),
    }
}

proof fn lemma_subsets_error_stays(lines: Seq<Seq<u8>>, gains: Seq<u64>, k: nat, n: nat)
    requires
        k <= n,
        subsets_field(lines, gains, k) is Err,
    ensures
        subsets_field(lines, gains, n) == subsets_field(lines, gains, k),
    decreases n - k,
{
    if k < n {
        lemma_subsets_error_stays(lines, gains, k, (n - 1) as nat);
    }
}

pub proof fn lemma_data_count_bound(subs: Seq<SubSetModel>)
    ensures
        data_count(subs) <= subs.len(),
    decreases subs.len(),
{
    if subs.len() > 0 {
        lemma_data_count_bound(subs.drop_last());
    }
}

/// Whether `name` contains the text `Data`, which marks a subset of recorded data.
pub fn is_data_subset(name: &str) -> (r: bool)
    ensures
        r == is_data_name(name@),
{
    let n: usize = name.unicode_len();
    if n < 4 {
        return false;
    }
    let mut i: usize = 0;
    while i <= n - 4
        invariant
            n == name@.len(),
            n >= 4,
            i <= n - 3,
            forall|j: int|
                0 <= j < i ==> #[trigger] name@.subrange(j, j + 4) != seq!['D', 'a', 't', 'a'],
        decreases n - i,
    {
        if name.get_char(i) == 'D' && name.get_char(i + 1) == 'a' && name.get_char(i + 2) == 't'
            && name.get_char(i + 3) == 'a' {
            assert(name@.subrange(i as int, i + 4) =~= seq!['D', 'a', 't', 'a']);
            return true;
        }
        assert(name@.subrange(i as int, i + 4)[0] == name@[i as int]);
        assert(name@.subrange(i as int, i + 4)[1] == name@[i + 1]);
        assert(name@.subrange(i as int, i + 4)[2] == name@[i + 2]);
        assert(name@.subrange(i as int, i + 4)[3] == name@[i + 3]);
        i = i + 1;
    }
    false
}

fn read_subset(lines: &Vec<Vec<u8>>, gains: &Vec<u64>, i: usize) -> (r: Result<SubSet, LoadError>)
    requires
        i < 256,
    ensures
        r matches Ok(s) ==> subset_field(lines_view(lines@), gains@, i as int) == Ok::<
            SubSetModel,
            LoadErrorModel,
        >(s@),
        r matches Err(e) ==> subset_field(lines_view(lines@), gains@, i as int) == Err::<
            SubSetModel,
            LoadErrorModel,
        >(e@),
{
    let base: usize = SUBSET_FIRST_LINE + SUBSET_STRIDE * i;
    let name = match read_text(lines, base) {
        Ok(v) => v,
        Err(e) => return Err(e),
    };
    let element_size = match read_uint(lines, base + 1, 255) {
        Ok(v) => v,
        Err(e) => return Err(e),
    };
    let sample_nums = match read_uint(lines, base + 3, 4294967295) {
        Ok(v) => v,
        Err(e) => return Err(e),
    };
    let min_sample_pos = match read_measure(lines, base + 4) {
        Ok(v) => v,
        Err(e) => return Err(e),
    };
    let sample_resolution = match read_measure(lines, base + 5) {
        Ok(v) => v,
        Err(e) => return Err(e),
    };
    let gain: u64 = if i < gains.len() {
        gains[i]
    } else {
        0
    };
    Ok(
        SubSet {
            name,
            element_size: element_size as u8,
            sample_nums: sample_nums as u32,
            min_sample_pos,
            sample_resolution,
            gain,
        },
    )
}

/// Reads the first `n` subset records, with the number of data subsets among
/// them and their largest depth.
fn read_subsets(lines: &Vec<Vec<u8>>, gains: &Vec<u64>, n: u64) -> (r: Result<
    (Vec<SubSet>, u8, u32),
    LoadError,
>)
    requires
        n <= 255,
    ensures
        r matches Ok((subs, channels, samples)) ==> {
            &&& subsets_field(lines_view(lines@), gains@, n as nat) == Ok::<
                Seq<SubSetModel>,
                LoadErrorModel,
            >(subs@.map_values(|s: SubSet| s@))
            &&& channels as nat == data_count(subs@.map_values(|s: SubSet| s@))
            &&& samples == max_samples(subs@.map_values(|s: SubSet| s@))
        },
        r matches Err(e) ==> subsets_field(lines_view(lines@), gains@, n as nat) == Err::<
            Seq<SubSetModel>,
            LoadErrorModel,
        >(e@),
{
    let ghost lv = lines_view(lines@);
    let mut sub_sets: Vec<SubSet> = Vec::new();
    let mut samples: u32 = 0;
    let mut channels: u8 = 0;
    let mut i: u64 = 0;
    assert(sub_sets@.map_values(|s: SubSet| s@) =~= Seq::<SubSetModel>::empty());
    while i < n
        invariant
            n <= 255,
            i <= n,
            lv == lines_view(lines@),
            subsets_field(lv, gains@, i as nat) == Ok::<Seq<SubSetModel>, LoadErrorModel>(
                sub_sets@.map_values(|s: SubSet| s@),
            ),
            samples == max_samples(sub_sets@.map_values(|s: SubSet| s@)),
            channels as nat == data_count(sub_sets@.map_values(|s: SubSet| s@)),
            sub_sets@.len() == i,
        decreases n - i,
    {
        let ghost before = sub_sets@.map_values(|s: SubSet| s@);
        let s = match read_subset(lines, gains, i as usize) {
            Ok(v) => v,
            Err(e) => {
                proof {
                    assert(subsets_field(lv, gains@, (i + 1) as nat) == Err::<
                        Seq<SubSetModel>,
                        LoadErrorModel,
                    >(e@));
                    lemma_subsets_error_stays(lv, gains@, (i + 1) as nat, n as nat);
                }
                return Err(e);
            },
        };
        let data = is_data_subset(s.name.as_str());
        if s.sample_nums > samples {
            samples = s.sample_nums;
        }
        proof {
            lemma_data_count_bound(before);
        }
        if data {
            channels = channels + 1;
        }
        sub_sets.push(s);
        i = i + 1;
        proof {
            let after = sub_sets@.map_values(|s: SubSet| s@);
            assert(after.drop_last() =~= before);
            assert(after =~= before.push(s@));
        }
    }
    Ok((sub_sets, channels, samples))
}

/// Reads the header from its lines. Subset `i` gets the gain `gains[i]`, or
/// zero where `gains` is shorter. The first field, in reading order, that is
/// missing or malformed is reported.
pub fn parse_header(lines: &Vec<Vec<u8>>, gains: &Vec<u64>) -> (r: Result<Header, LoadError>)
    ensures
        r matches Ok(h) ==> header_spec(lines_view(lines@), gains@) == Ok::<
            HeaderModel,
            LoadErrorModel,
        >(h@),
        r matches Ok(h) ==> h.channels as nat == data_count(h@.sub_sets),
        r matches Err(e) ==> header_spec(lines_view(lines@), gains@) == Err::<
            HeaderModel,
            LoadErrorModel,
        >(e@),
{
    let format = match read_text(lines, 0) {
        Ok(v) => v,
        Err(e) => return Err(e),
    };
    let version = match read_text(lines, 1) {
        Ok(v) => v,
        Err(e) => return Err(e),
    };
    let axes = match read_uint(lines, 3, 255) {
        Ok(v) => v,
        Err(e) => return Err(e),
    };
    let n = match read_uint(lines, 4, 255) {
        Ok(v) => v,
        Err(e) => return Err(e),
    };
    let res_x = match read_measure(lines, 8) {
        Ok(v) => v,
        Err(e) => return Err(e),
    };
    let res_y = match read_measure(lines, 12) {
        Ok(v) => v,
        Err(e) => return Err(e),
    };
    let samples_x = match read_uint(lines, 6, 65535) {
        Ok(v) => v,
        Err(e) => return Err(e),
    };
    let samples_y = match read_uint(lines, 10, 65535) {
        Ok(v) => v,
        Err(e) => return Err(e),
    };
    let (sub_sets, channels, samples) = match read_subsets(lines, gains, n) {
        Ok(v) => v,
        Err(e) => return Err(e),
    };
    Ok(
        Header {
            format,
            version,
            axes: axes as u8,
            res_x,
            res_y,
            samples_x: samples_x as u16,
            samples_y: samples_y as u16,
            sub_sets,
            channels,
            samples,
        },
    )
}

} // verus!
