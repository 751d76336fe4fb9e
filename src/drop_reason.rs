use std::collections::{HashMap, HashSet};
use vstd::prelude::*;
use vstd::string::{StrSliceExecFns, StringExecFns};

use crate::text::{contains_str, decimal, hex4, occurs_in, push_decimal, push_hex4};
use crate::types::PacketResult;

verus! {

broadcast use vstd::std_specs::hash::group_hash_axioms;

/// Magic number that opens a BTF blob.
pub const BTF_MAGIC: u16 = 0xEB9F;

/// BTF kind of a 32-bit enum.
pub const BTF_KIND_ENUM: u32 = 6;

/// BTF kind of a 64-bit enum.
pub const BTF_KIND_ENUM64: u32 = 19;

/// Length of the BTF header.
pub const BTF_HEADER_LEN: usize = 24;

/// Length of the header of one BTF type record.
pub const BTF_TYPE_LEN: usize = 12;

/// Text of the decoded bytes `b`, invalid sequences replaced.
pub uninterp spec fn utf8_lossy(b: Seq<u8>) -> Seq<char>;

/// Upper-case form of `s`.
pub uninterp spec fn upper_of(s: Seq<char>) -> Seq<char>;

/// Relies on `String::from_utf8_lossy`: the text depends on the bytes alone,
/// no bytes give no text, and valid UTF-8 (here: ASCII) is decoded unchanged.
#[verifier::external_body]
fn lossy_text(b: &[u8]) -> (r: String)
    ensures
        r@ == utf8_lossy(b@),
        b@.len() == 0 ==> r@.len() == 0,
        (forall|i: int| 0 <= i < b@.len() ==> b@[i] < 128) ==> r@ == b@.map_values(
            |x: u8| x as char,
        ),
{
    String::from_utf8_lossy(b).into_owned()
}

/// Relies on `str::to_uppercase`: the result depends on the characters alone.
#[verifier::external_body]
fn uppercase(s: &str) -> (r: String)
    ensures
        r@ == upper_of(s@),
{
    s.to_uppercase()
}

pub open spec fn le_u16(b: Seq<u8>, off: int) -> u16 {
    (b[off] + b[off + 1] * 256) as u16
}

pub open spec fn le_u32(b: Seq<u8>, off: int) -> u32 {
    (b[off] + b[off + 1] * 256 + b[off + 2] * 65536 + b[off + 3] * 16777216) as u32
}

/// Position of the first NUL at or after `i`, or the length of `s`.
pub open spec fn cstr_end(s: Seq<u8>, i: int) -> int
    decreases s.len() - i,
{
    if i < 0 || i >= s.len() {
        s.len() as int
    } else if s[i] == 0 {
        i
    } else {
        cstr_end(s, i + 1)
    }
}

/// The NUL-terminated name at `off` of the string section; empty past its end.
pub open spec fn name_at(strs: Seq<u8>, off: int) -> Seq<char> {
    if off >= strs.len() {
        Seq::empty()
    } else {
        utf8_lossy(strs.subrange(off, cstr_end(strs, off)))
    }
}

pub open spec fn kind_of(info: u32) -> u32 {
    (info / 16777216) % 32
}

pub open spec fn vlen_of(info: u32) -> u32 {
    info % 65536
}

/// Bytes that follow the header of a type record of `kind` with `vlen` members.
pub open spec fn extra_len(kind: u32, vlen: u32) -> int {
    if kind == 1 || kind == 17 {
        4
    } else if kind == 4 {
        12
    } else if kind == 6 || kind == 13 {
        vlen * 8
    } else if kind == 2 || kind == 5 || kind == 15 || kind == 19 {
        vlen * 12
    } else {
        0
    }
}

/// Offset just past the header of the first record at or after `off` that is
/// an enum of `kind` named `skb_drop_reason`.
pub open spec fn enum_record(types: Seq<u8>, strs: Seq<u8>, kind: u32, off: int) -> Option<int>
    decreases types.len() - off,
{
    if off < 0 || off + 12 > types.len() {
        None
    } else {
        let info = le_u32(types, off + 4);
        let next = off + 12 + extra_len(kind_of(info), vlen_of(info));
        if kind_of(info) == kind && name_at(strs, le_u32(types, off) as int) == "skb_drop_reason"@ {
            Some(off + 12)
        } else if next <= off || next > types.len() {
            None
        } else {
            enum_record(types, strs, kind, next)
        }
    }
}

pub open spec fn entry_size(kind: u32) -> int {
    if kind == BTF_KIND_ENUM64 {
        12
    } else {
        8
    }
}

/// A variant name without the `SKB_DROP_REASON_` prefix.
pub open spec fn short_name(full: Seq<char>) -> Seq<char> {
    if full.len() >= 16 && full.subrange(0, 16) == "SKB_DROP_REASON_"@ {
        full.subrange(16, full.len() as int)
    } else {
        full
    }
}

/// A reason is a firewall's when its name mentions a packet filter.
pub open spec fn is_firewall_name(short: Seq<char>) -> bool {
    let u = upper_of(short);
    occurs_in(u, "NETFILTER"@) || occurs_in(u, "IPTABLES"@) || occurs_in(u, "NFTABLES"@)
}

/// Names of the enum entries at `e`, `e + size`, ... (at most `remaining` of
/// them, as long as they fit), a later entry winning over an earlier one.
pub open spec fn entry_names(types: Seq<u8>, strs: Seq<u8>, e: int, size: int, remaining: int) -> Map<
    u32,
    Seq<char>,
>
    decreases remaining,
{
    if remaining <= 0 || e + size > types.len() || size <= 0 {
        Map::empty()
    } else {
        let rest = entry_names(types, strs, e + size, size, remaining - 1);
        let v = le_u32(types, e + 4);
        if rest.contains_key(v) {
            rest
        } else {
            rest.insert(v, short_name(name_at(strs, le_u32(types, e) as int)))
        }
    }
}

/// Values of the same entries whose name is a firewall's.
pub open spec fn entry_firewall(types: Seq<u8>, strs: Seq<u8>, e: int, size: int, remaining: int) -> Set<
    u32,
>
    decreases remaining,
{
    if remaining <= 0 || e + size > types.len() || size <= 0 {
        Set::empty()
    } else {
        let rest = entry_firewall(types, strs, e + size, size, remaining - 1);
        if is_firewall_name(short_name(name_at(strs, le_u32(types, e) as int))) {
            rest.insert(le_u32(types, e + 4))
        } else {
            rest
        }
    }
}

/// The drop reasons of the enum of `kind` in the given sections, if it is there.
pub open spec fn enum_reasons(types: Seq<u8>, strs: Seq<u8>, kind: u32) -> Option<
    (Map<u32, Seq<char>>, Set<u32>),
> {
    match enum_record(types, strs, kind, 0) {
        Some(e) => {
            let vlen = vlen_of(le_u32(types, e - 8)) as int;
            Some(
                (
                    entry_names(types, strs, e, entry_size(kind), vlen),
                    entry_firewall(types, strs, e, entry_size(kind), vlen),
                ),
            )
        },
        None => None,
    }
}

pub open spec fn hdr_len(data: Seq<u8>) -> int {
    le_u32(data, 4) as int
}

pub open spec fn type_start(data: Seq<u8>) -> int {
    hdr_len(data) + le_u32(data, 8)
}

pub open spec fn type_end(data: Seq<u8>) -> int {
    type_start(data) + le_u32(data, 12)
}

pub open spec fn str_start(data: Seq<u8>) -> int {
    hdr_len(data) + le_u32(data, 16)
}

pub open spec fn str_end(data: Seq<u8>) -> int {
    str_start(data) + le_u32(data, 20)
}

/// The sections of a BTF blob lie within it.
pub open spec fn sections_fit(data: Seq<u8>) -> bool {
    type_end(data) <= data.len() && str_end(data) <= data.len()
}

/// The drop reasons a well-formed BTF blob declares: the 32-bit enum if there
/// is one, else the 64-bit one.
pub open spec fn btf_reasons(data: Seq<u8>) -> Option<(Map<u32, Seq<char>>, Set<u32>)> {
    let types = data.subrange(type_start(data), type_end(data));
    let strs = data.subrange(str_start(data), str_end(data));
    match enum_reasons(types, strs, BTF_KIND_ENUM) {
        Some(r) => Some(r),
        None => enum_reasons(types, strs, BTF_KIND_ENUM64),
    }
}

pub open spec fn string_values(m: Map<u32, String>) -> Map<u32, Seq<char>> {
    m.map_values(|s: String| s@)
}

fn read_u16_le(b: &[u8], off: usize) -> (r: u16)
    requires
        off + 2 <= b@.len(),
    ensures
        r == le_u16(b@, off as int),
{
    b[off] as u16 + (b[off + 1] as u16) * 256
}

fn read_u32_le(b: &[u8], off: usize) -> (r: u32)
    requires
        off + 4 <= b@.len(),
    ensures
        r == le_u32(b@, off as int),
{
    b[off] as u32 + (b[off + 1] as u32) * 256 + (b[off + 2] as u32) * 65536 + (b[off + 3] as u32)
        * 16777216
}

pub(crate) fn copy_range(data: &[u8], start: usize, end: usize) -> (r: Vec<u8>)
    requires
        start <= end <= data@.len(),
    ensures
        r@ == data@.subrange(start as int, end as int),
{
    let mut out: Vec<u8> = Vec::new();
    let mut i: usize = start;
    while i < end
        invariant
            start <= i <= end,
            end <= data@.len(),
            out@ == data@.subrange(start as int, i as int),
        decreases end - i,
    {
        out.push(data[i]);
        assert(out@ =~= data@.subrange(start as int, i + 1));
        i = i + 1;
    }
    out
}

/// Reads the NUL-terminated string at `offset` of the string section.
pub fn read_str(str_section: &[u8], offset: usize) -> (r: String)
    ensures
        r@ == name_at(str_section@, offset as int),
{
    if offset >= str_section.len() {
        return String::new();
    }
    let mut end = offset;
    while end < str_section.len() && str_section[end] != 0
        invariant
            offset <= end <= str_section@.len(),
            cstr_end(str_section@, offset as int) == cstr_end(str_section@, end as int),
        decreases str_section@.len() - end,
    {
        end = end + 1;
    }
    let bytes = copy_range(str_section, offset, end);
    lossy_text(bytes.as_slice())
}

/// Bytes that follow the header of a type record of `kind` with `vlen` members.
pub fn extra_bytes(kind: u32, vlen: u32) -> (r: u32)
    requires
        vlen < 65536,
    ensures
        r as int == extra_len(kind, vlen),
{
    if kind == 1 || kind == 17 {
        4
    } else if kind == 4 {
        12
    } else if kind == 6 || kind == 13 {
        vlen * 8
    } else if kind == 2 || kind == 5 || kind == 15 || kind == 19 {
        vlen * 12
    } else {
        0
    }
}

/// Strips the `SKB_DROP_REASON_` prefix, when the name has it.
fn strip_reason_prefix(full: &String) -> (r: String)
    ensures
        r@ == short_name(full@),
{
    let n = full.as_str().unicode_len();
    if n < 16 {
        return full.clone();
    }
    let head = full.as_str().substring_char(0, 16);
    let head_s = String::from_str(head);
    let prefix = String::from_str("SKB_DROP_REASON_");
    if head_s == prefix {
        String::from_str(full.as_str().substring_char(16, n))
    } else {
        full.clone()
    }
}

fn firewall_name(short: &String) -> (r: bool)
    ensures
        r == is_firewall_name(short@),
{
    let upper = uppercase(short.as_str());
    contains_str(upper.as_str(), "NETFILTER") || contains_str(upper.as_str(), "IPTABLES")
        || contains_str(upper.as_str(), "NFTABLES")
}

/// Maps drop-reason numbers of the running kernel to names, and tells the
/// firewall's reasons apart.
#[derive(Debug)]
pub struct DropReasonResolver {
    /// Reason number to name, without the `SKB_DROP_REASON_` prefix.
    pub names: HashMap<u32, String>,
    /// Reason numbers that a packet filter gives.
    pub fw_reasons: HashSet<u32>,
}

/// Display text of a drop with reason `id` classified as `result`.
pub open spec fn reason_text(names: Map<u32, Seq<char>>, id: u32, result: PacketResult) -> Seq<
    char,
> {
    let part = if names.contains_key(id) && names[id].len() > 0 {
        names[id]
    } else {
        "unknown reason "@ + decimal(id as nat)
    };
    if result == PacketResult::FwDrop {
        "Dropped by firewall ("@ + part + ")"@
    } else {
        "Dropped in network stack ("@ + part + ")"@
    }
}

impl DropReasonResolver {
    pub open spec fn names_view(&self) -> Map<u32, Seq<char>> {
        string_values(self.names@)
    }

    pub open spec fn class_of(&self, drop_reason: u32) -> PacketResult {
        if self.fw_reasons@.contains(drop_reason) {
            PacketResult::FwDrop
        } else {
            PacketResult::NicDrop
        }
    }

    /// Scans the type section for the enum of `target_kind` named
    /// `skb_drop_reason` and collects its entries.
    fn find_enum(type_section: &[u8], str_section: &[u8], target_kind: u32) -> (r: Option<
        (HashMap<u32, String>, HashSet<u32>),
    >)
        ensures
            match enum_reasons(type_section@, str_section@, target_kind) {
                Some(p) => r matches Some(q) && string_values(q.0@) == p.0 && q.1@ == p.1,
                None => r is None,
            },
    {
        let ghost types = type_section@;
        let ghost strs = str_section@;
        let len = type_section.len();
        let mut offset: usize = 0;
        while len >= BTF_TYPE_LEN && offset <= len - BTF_TYPE_LEN
            invariant
                types == type_section@,
                strs == str_section@,
                len == types.len(),
                offset <= len,
                enum_record(types, strs, target_kind, 0) == enum_record(
                    types,
                    strs,
                    target_kind,
                    offset as int,
                ),
            decreases len - offset,
        {
            let name_off = read_u32_le(type_section, offset);
            let info = read_u32_le(type_section, offset + 4);
            let kind = (info / 16777216) % 32;
            let vlen = info % 65536;
            let body = offset + BTF_TYPE_LEN;
            if kind == target_kind {
                let record_name = read_str(str_section, name_off as usize);
                if record_name == String::from_str("skb_drop_reason") {
                    return Some(
                        Self::parse_enum_variants(
                            type_section,
                            str_section,
                            body,
                            vlen,
                            target_kind,
                        ),
                    );
                }
            }
            let extra = extra_bytes(kind, vlen) as usize;
            if extra > len - body {
                return None;
            }
            offset = body + extra;
        }
        None
    }

    /// Builds the resolver from a BTF blob.
    pub fn from_btf_bytes(data: &[u8]) -> (r: Result<DropReasonResolver, String>)
        ensures
            data@.len() < BTF_HEADER_LEN ==> (r matches Err(e) && e@
                == "BTF data too short for header"@),
            data@.len() >= BTF_HEADER_LEN && le_u16(data@, 0) != BTF_MAGIC ==> (r matches Err(e)
                && e@ == "Invalid BTF magic: expected 0xEB9F, got 0x"@ + hex4(le_u16(data@, 0))),
            data@.len() >= BTF_HEADER_LEN && le_u16(data@, 0) == BTF_MAGIC && !sections_fit(data@)
                ==> (r matches Err(e) && e@ == "BTF data too short for type/string sections"@),
            data@.len() >= BTF_HEADER_LEN && le_u16(data@, 0) == BTF_MAGIC && sections_fit(data@)
                ==> match btf_reasons(data@) {
                Some(p) => r matches Ok(res) && res.names_view() == p.0 && res.fw_reasons@ == p.1,
                None => r matches Err(e) && e@ == "enum skb_drop_reason not found in BTF"@,
            },
    {
        if data.len() < BTF_HEADER_LEN {
            return Err(String::from_str("BTF data too short for header"));
        }
        let magic = read_u16_le(data, 0);
        if magic != BTF_MAGIC {
            let mut msg = String::from_str("Invalid BTF magic: expected 0xEB9F, got 0x");
            push_hex4(&mut msg, magic);
            return Err(msg);
        }
        let hdr = read_u32_le(data, 4) as u64;
        let type_start = hdr + read_u32_le(data, 8) as u64;
        let type_end = type_start + read_u32_le(data, 12) as u64;
        let str_start = hdr + read_u32_le(data, 16) as u64;
        let str_end = str_start + read_u32_le(data, 20) as u64;
        if type_end > data.len() as u64 || str_end > data.len() as u64 {
            return Err(String::from_str("BTF data too short for type/string sections"));
        }
        let type_section = copy_range(data, type_start as usize, type_end as usize);
        let str_section = copy_range(data, str_start as usize, str_end as usize);
        let found = match Self::find_enum(type_section.as_slice(), str_section.as_slice(), BTF_KIND_ENUM) {
            Some(p) => Some(p),
            None => Self::find_enum(type_section.as_slice(), str_section.as_slice(), BTF_KIND_ENUM64),
        };
        match found {
            Some((names, fw_reasons)) => Ok(DropReasonResolver { names, fw_reasons }),
            None => Err(String::from_str("enum skb_drop_reason not found in BTF")),
        }
    }

    /// Firewall drop when the reason is a firewall's, stack drop otherwise.
    pub fn classify_drop(&self, drop_reason: u32) -> (r: PacketResult)
        ensures
            r == self.class_of(drop_reason),
    {
        if self.fw_reasons.contains(&drop_reason) {
            PacketResult::FwDrop
        } else {
            PacketResult::NicDrop
        }
    }

    /// Human-readable text of a drop with reason `drop_reason` classified as `result`.
    pub fn drop_reason_string(&self, drop_reason: u32, result: &PacketResult) -> (r: String)
        requires
            *result != PacketResult::Delivered,
        ensures
            r@ == reason_text(self.names_view(), drop_reason, *result),
    {
        let known = match self.names.get(&drop_reason) {
            Some(name) => {
                if name.as_str().unicode_len() > 0 {
                    Some(name.clone())
                } else {
                    None
                }
            },
            None => None,
        };
        let part = match known {
            Some(name) => name,
            None => {
                let mut p = String::from_str("unknown reason ");
                push_decimal(&mut p, drop_reason as u64);
                p
            },
        };
        let mut s = match result {
            PacketResult::FwDrop => String::from_str("Dropped by firewall ("),
            _ => String::from_str("Dropped in network stack ("),
        };
        s.append(part.as_str());
        s.append(")");
        s
    }

    /// The name of reason `drop_reason`, if the kernel declares it.
    pub fn reason_name(&self, drop_reason: u32) -> (r: Option<String>)
        ensures
            match r {
                Some(s) => self.names_view().contains_key(drop_reason) && s@ == self.names_view()[drop_reason],
                None => !self.names_view().contains_key(drop_reason),
            },
    {
        match self.names.get(&drop_reason) {
            Some(name) => Some(name.clone()),
            None => None,
        }
    }

    /// Whether reason `drop_reason` is a firewall's.
    pub fn is_firewall(&self, drop_reason: u32) -> (r: bool)
        ensures
            r == self.fw_reasons@.contains(drop_reason),
    {
        self.fw_reasons.contains(&drop_reason)
    }

    /// Number of distinct reasons the kernel declares.
    pub fn reason_count(&self) -> (r: usize)
        ensures
            r == self.names@.len(),
    {
        self.names.len()
    }

    /// Collects the entries of the enum whose first entry is at `offset`.
    fn parse_enum_variants(
        type_section: &[u8],
        str_section: &[u8],
        offset: usize,
        vlen: u32,
        kind: u32,
    ) -> (r: (HashMap<u32, String>, HashSet<u32>))
        requires
            offset <= type_section@.len(),
        ensures
            string_values(r.0@) == entry_names(
                type_section@,
                str_section@,
                offset as int,
                entry_size(kind),
                vlen as int,
            ),
            r.1@ == entry_firewall(
                type_section@,
                str_section@,
                offset as int,
                entry_size(kind),
                vlen as int,
            ),
    {
        let mut names: HashMap<u32, String> = HashMap::new();
        let mut fw_reasons: HashSet<u32> = HashSet::new();
        let step: usize = if kind == BTF_KIND_ENUM64 {
            12
        } else {
            8
        };
        let ghost types = type_section@;
        let ghost strs = str_section@;
        let ghost size = step as int;
        let mut entry_off: usize = offset;
        let mut i: u32 = 0;
        while i < vlen
            invariant
                types == type_section@,
                strs == str_section@,
                size == entry_size(kind),
                size == step,
                i <= vlen,
                entry_off <= types.len(),
                entry_names(types, strs, offset as int, size, vlen as int) == string_values(
                    names@,
                ).union_prefer_right(
                    entry_names(types, strs, entry_off as int, size, (vlen - i) as int),
                ),
                entry_firewall(types, strs, offset as int, size, vlen as int) == fw_reasons@.union(
                    entry_firewall(types, strs, entry_off as int, size, (vlen - i) as int),
                ),
            ensures
                i == vlen || entry_off + size > types.len(),
            decreases vlen - i,
        {
            if step > type_section.len() - entry_off {
                break;
            }
            let name_off = read_u32_le(type_section, entry_off);
            let val = read_u32_le(type_section, entry_off + 4);
            let full_name = read_str(str_section, name_off as usize);
            let short = strip_reason_prefix(&full_name);
            let fw = firewall_name(&short);
            let ghost e = entry_off as int;
            let ghost rest_names = entry_names(types, strs, e + size, size, (vlen - i - 1) as int);
            let ghost rest_fw = entry_firewall(types, strs, e + size, size, (vlen - i - 1) as int);
            let ghost old_names = string_values(names@);
            let ghost old_fw = fw_reasons@;
            if fw {
                fw_reasons.insert(val);
            }
            let ghost sn = short@;
            names.insert(val, short);
            proof {
                assert(string_values(names@) =~= old_names.insert(val, sn));
                assert(old_names.union_prefer_right(
                    entry_names(types, strs, e, size, (vlen - i) as int),
                ) =~= string_values(names@).union_prefer_right(rest_names));
                assert(old_fw.union(entry_firewall(types, strs, e, size, (vlen - i) as int))
                    =~= fw_reasons@.union(rest_fw));
            }
            entry_off = entry_off + step;
            i = i + 1;
        }
        proof {
            let rem = (vlen - i) as int;
            assert(entry_names(types, strs, entry_off as int, size, rem) =~= Map::empty());
            assert(entry_firewall(types, strs, entry_off as int, size, rem) =~= Set::empty());
            assert(string_values(names@).union_prefer_right(Map::empty()) =~= string_values(
                names@,
            ));
            assert(fw_reasons@.union(Set::empty()) =~= fw_reasons@);
        }
        (names, fw_reasons)
    }
}

} // verus!
