use vstd::prelude::*;

use crate::text::{
    chars_of, lines, lines_spec, parse_u64, parse_u64_spec, split_whitespace, starts_with,
    views, words,
};

verus! {

/// Resident and virtual memory sizes, in bytes, as far as they were found.
#[derive(Debug, Clone, Copy, PartialEq, Eq)]
pub struct MemoryStats {
    pub rss_bytes: Option<u64>,
    pub vms_bytes: Option<u64>,
}

/// `kb * 1024` in 64-bit wrapping arithmetic.
pub open spec fn kib_to_bytes(kb: u64) -> u64 {
    ((kb as nat * 1024) % 0x1_0000_0000_0000_0000nat) as u64
}

/// The number in the second whitespace-separated word of a line, if any.
pub open spec fn line_kib(line: Seq<char>) -> Option<u64> {
    let w = words(line);
    if w.len() > 1 {
        parse_u64_spec(w[1])
    } else {
        None
    }
}

/// The byte count given by the last of `ls` that starts with `key` and
/// carries a number: the value a scan that overwrites on each match keeps.
pub open spec fn last_field_bytes(ls: Seq<Seq<char>>, key: Seq<char>) -> Option<u64>
    decreases ls.len(),
{
    if ls.len() == 0 {
        None
    } else {
        let l = ls.last();
        if key.is_prefix_of(l) && line_kib(l) is Some {
            Some(kib_to_bytes(line_kib(l)->0))
        } else {
            last_field_bytes(ls.drop_last(), key)
        }
    }
}

/// The number of kibibytes on one status line.
fn line_kib_exec(line: &str) -> (r: Option<u64>)
    ensures
        r == line_kib(line@),
{
    let w = split_whitespace(line);
    proof {
        assert(views(w@).len() == w@.len());
    }
    if w.len() > 1 {
        proof {
            assert(views(w@)[1] == w@[1]@);
        }
        parse_u64(w[1].as_str())
    } else {
        None
    }
}

/// Reads the `VmRSS:` and `VmSize:` lines of a process status text
/// (`/proc/self/status`), converting their kibibyte counts to bytes.
pub fn parse_memory_status(status: &str) -> (m: MemoryStats)
    ensures
        m.rss_bytes == last_field_bytes(lines_spec(status@), "VmRSS:"@),
        m.vms_bytes == last_field_bytes(lines_spec(status@), "VmSize:"@),
{
    let ls = lines(status);
    let rss_key = chars_of("VmRSS:");
    let vms_key = chars_of("VmSize:");
    let ghost sl = lines_spec(status@);
    proof {
        reveal_strlit("VmRSS:");
        reveal_strlit("VmSize:");
        assert(views(ls@).len() == ls@.len());
    }
    let mut rss: Option<u64> = None;
    let mut vms: Option<u64> = None;
    for i in 0..ls.len()
        invariant
            views(ls@) == sl,
            rss_key@ == "VmRSS:"@,
            vms_key@ == "VmSize:"@,
            rss == last_field_bytes(sl.take(i as int), "VmRSS:"@),
            vms == last_field_bytes(sl.take(i as int), "VmSize:"@),
    {
        proof {
            reveal_strlit("VmRSS:");
            reveal_strlit("VmSize:");
            assert(sl.take(i + 1).drop_last() == sl.take(i as int));
            assert(sl.take(i + 1).last() == ls@[i as int]@);
        }
        let line = chars_of(ls[i].as_str());
        if starts_with(line.as_slice(), rss_key.as_slice()) {
            proof {
                reveal_strlit("VmRSS:");
                reveal_strlit("VmSize:");
                assert(line@.subrange(0, 6) == "VmRSS:"@);
                assert(line@.subrange(0, 6)[2] == "VmRSS:"@[2]);
                assert("VmRSS:"@[2] == 'R');
                assert("VmSize:"@[2] == 'S');
                assert(line@[2] == 'R');
                if "VmSize:"@.is_prefix_of(line@) {
                    assert(line@.subrange(0, 7)[2] == "VmSize:"@[2]);
                }
            }
            match line_kib_exec(ls[i].as_str()) {
                Some(kb) => {
                    rss = Some(kb.wrapping_mul(1024));
                },
                None => {},
            }
        } else if starts_with(line.as_slice(), vms_key.as_slice()) {
            match line_kib_exec(ls[i].as_str()) {
                Some(kb) => {
                    vms = Some(kb.wrapping_mul(1024));
                },
                None => {},
            }
        }
    }
    proof {
        assert(sl.take(ls@.len() as int) == sl);
    }
    MemoryStats { rss_bytes: rss, vms_bytes: vms }
}

/// The user and system CPU time fields (the 14th and 15th words) of a
/// process stat text (`/proc/self/stat`), when it has more than 14 words.
pub fn cpu_time_fields(stat: &str) -> (r: Option<(String, String)>)
    ensures
        r is Some <==> words(stat@).len() > 14,
        r matches Some((u, s)) ==> u@ == words(stat@)[13] && s@ == words(stat@)[14],
{
    let w = split_whitespace(stat);
    proof {
        assert(views(w@).len() == w@.len());
    }
    if w.len() > 14 {
        proof {
            assert(views(w@)[13] == w@[13]@);
            assert(views(w@)[14] == w@[14]@);
        }
        Some((w[13].clone(), w[14].clone()))
    } else {
        None
    }
}

} // verus!
