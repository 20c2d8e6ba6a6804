//! Host inspection: the script run on the node, and the reading of what it prints.
use vstd::prelude::*;
use vstd::string::*;

use crate::node::NodeInspection;
use crate::text::{
    chars_of, find_char, index_of, lemma_index_of, opt_text, owned, parse_bounded, parse_unsigned,
    string_of, trim, trimmed,
};

verus! {

/// An inspection by its texts.
pub struct InspectionView {
    pub name: Seq<char>,
    pub hostname: Option<Seq<char>>,
    pub os: Option<Seq<char>>,
    pub arch: Option<Seq<char>>,
    pub cpu_cores: Option<u32>,
    pub memory_total_mb: Option<u64>,
    pub disk_total_mb: Option<u64>,
    pub uptime: Option<Seq<char>>,
}

pub open spec fn inspection_view(i: NodeInspection) -> InspectionView {
    InspectionView {
        name: i.name@,
        hostname: opt_text(i.hostname),
        os: opt_text(i.os),
        arch: opt_text(i.arch),
        cpu_cores: i.cpu_cores,
        memory_total_mb: i.memory_total_mb,
        disk_total_mb: i.disk_total_mb,
        uptime: opt_text(i.uptime),
    }
}

/// An inspection of the node `name` with nothing found yet.
pub open spec fn blank_inspection(name: Seq<char>) -> InspectionView {
    InspectionView {
        name,
        hostname: None,
        os: None,
        arch: None,
        cpu_cores: None,
        memory_total_mb: None,
        disk_total_mb: None,
        uptime: None,
    }
}

pub open spec fn parsed_u32(value: Seq<char>) -> Option<u32> {
    match parse_unsigned(value, u32::MAX as nat) {
        Some(n) => Some(n as u32),
        None => None,
    }
}

pub open spec fn parsed_u64(value: Seq<char>) -> Option<u64> {
    match parse_unsigned(value, u64::MAX as nat) {
        Some(n) => Some(n as u64),
        None => None,
    }
}

/// One line `key=value` of the script's output. Lines without `=`, and
/// values that are blank once trimmed, change nothing; a known key takes the
/// trimmed value (numbers as the standard parser reads them, `None` when it
/// cannot); unknown keys change nothing.
pub open spec fn apply_line(iv: InspectionView, line: Seq<char>) -> InspectionView {
    let k = index_of(line, '=');
    if k < 0 {
        iv
    } else {
        let key = line.subrange(0, k);
        let value = trimmed(line.subrange(k + 1, line.len() as int));
        if value.len() == 0 {
            iv
        } else if key == "hostname"@ {
            InspectionView { hostname: Some(value), ..iv }
        } else if key == "os"@ {
            InspectionView { os: Some(value), ..iv }
        } else if key == "arch"@ {
            InspectionView { arch: Some(value), ..iv }
        } else if key == "cpu_cores"@ {
            InspectionView { cpu_cores: parsed_u32(value), ..iv }
        } else if key == "memory_total_mb"@ {
            InspectionView { memory_total_mb: parsed_u64(value), ..iv }
        } else if key == "disk_total_mb"@ {
            InspectionView { disk_total_mb: parsed_u64(value), ..iv }
        } else if key == "uptime"@ {
            InspectionView { uptime: Some(value), ..iv }
        } else {
            iv
        }
    }
}

/// A line ended by `\n` loses a `\r` before it.
pub open spec fn without_cr(line: Seq<char>) -> Seq<char> {
    if line.len() > 0 && line.last() == '\r' {
        line.drop_last()
    } else {
        line
    }
}

/// Every line of `s` applied in order (the lines of `str::lines`).
pub open spec fn apply_output(iv: InspectionView, s: Seq<char>) -> InspectionView
    decreases s.len(),
{
    if s.len() == 0 {
        iv
    } else {
        let k = index_of(s, '\n');
        proof {
            lemma_index_of(s, '\n');
        }
        if k < 0 {
            apply_line(iv, s)
        } else {
            apply_output(apply_line(iv, without_cr(s.subrange(0, k))), s.subrange(k + 1, s.len() as int))
        }
    }
}

/// The shell script an inspection runs: one `key=value` line for each of
/// hostname, os, arch, cpu_cores, memory_total_mb, disk_total_mb and uptime.
pub open spec fn inspection_script() -> Seq<char> {
    "printf 'hostname=%s\\n' \"$(hostname 2>/dev/null)\"\nprintf 'os=%s\\n' \"$(. /etc/os-release 2>/dev/null && printf '%s' \"$PRETTY_NAME\")\"\nprintf 'arch=%s\\n' \"$(uname -m 2>/dev/null)\"\nprintf 'cpu_cores=%s\\n' \"$(getconf _NPROCESSORS_ONLN 2>/dev/null || nproc 2>/dev/null)\"\nprintf 'memory_total_mb=%s\\n' \"$(awk '/MemTotal/ {printf \"%d\", $2 / 1024}' /proc/meminfo 2>/dev/null)\"\nprintf 'disk_total_mb=%s\\n' \"$(df -Pm / 2>/dev/null | awk 'NR==2 {print $2}')\"\nprintf 'uptime=%s\\n' \"$(uptime -p 2>/dev/null || uptime 2>/dev/null)\""@
}

/// `t` occurs in `s` as a run of consecutive characters.
pub open spec fn contains_text(s: Seq<char>, t: Seq<char>) -> bool {
    exists|i: int| 0 <= i && i + t.len() <= s.len() && #[trigger] s.subrange(i, i + t.len()) == t
}

/// The script prints `key=` followed by what the shell command `command`
/// writes: it holds `printf 'key=%s\n' "$(command`.
pub open spec fn prints_key_from(script: Seq<char>, key: Seq<char>, command: Seq<char>) -> bool {
    contains_text(script, "printf '"@ + key + "=%s\\n' \"$("@ + command)
}

/// Each key that an inspection reads is printed from the command that
/// yields that quantity: the host name from `hostname`, the OS from
/// `PRETTY_NAME` in `/etc/os-release`, the architecture from `uname -m`
/// (the machine hardware name), the CPU cores from
/// `getconf _NPROCESSORS_ONLN`, the memory from `MemTotal` in
/// `/proc/meminfo` in MiB, the disk from the second field of `df -Pm /`,
/// and the uptime from `uptime -p`.
pub proof fn law_script_commands()
    ensures
        prints_key_from(inspection_script(), "hostname"@, "hostname 2>/dev/null"@),
        prints_key_from(
            inspection_script(),
            "os"@,
            ". /etc/os-release 2>/dev/null && printf '%s' \"$PRETTY_NAME\""@,
        ),
        prints_key_from(inspection_script(), "arch"@, "uname -m 2>/dev/null"@),
        prints_key_from(inspection_script(), "cpu_cores"@, "getconf _NPROCESSORS_ONLN 2>/dev/null"@),
        prints_key_from(
            inspection_script(),
            "memory_total_mb"@,
            "awk '/MemTotal/ {printf \"%d\", $2 / 1024}' /proc/meminfo 2>/dev/null"@,
        ),
        prints_key_from(
            inspection_script(),
            "disk_total_mb"@,
            "df -Pm / 2>/dev/null | awk 'NR==2 {print $2}'"@,
        ),
        prints_key_from(inspection_script(), "uptime"@, "uptime -p 2>/dev/null"@),
{
    let s = inspection_script();
    reveal_strlit("printf 'hostname=%s\\n' \"$(hostname 2>/dev/null)\"\nprintf 'os=%s\\n' \"$(. /etc/os-release 2>/dev/null && printf '%s' \"$PRETTY_NAME\")\"\nprintf 'arch=%s\\n' \"$(uname -m 2>/dev/null)\"\nprintf 'cpu_cores=%s\\n' \"$(getconf _NPROCESSORS_ONLN 2>/dev/null || nproc 2>/dev/null)\"\nprintf 'memory_total_mb=%s\\n' \"$(awk '/MemTotal/ {printf \"%d\", $2 / 1024}' /proc/meminfo 2>/dev/null)\"\nprintf 'disk_total_mb=%s\\n' \"$(df -Pm / 2>/dev/null | awk 'NR==2 {print $2}')\"\nprintf 'uptime=%s\\n' \"$(uptime -p 2>/dev/null || uptime 2>/dev/null)\"");
    reveal_strlit("printf '");
    reveal_strlit("=%s\\n' \"$(");
    reveal_strlit("hostname");
    reveal_strlit("hostname 2>/dev/null");
    reveal_strlit("os");
    reveal_strlit(". /etc/os-release 2>/dev/null && printf '%s' \"$PRETTY_NAME\"");
    reveal_strlit("arch");
    reveal_strlit("uname -m 2>/dev/null");
    reveal_strlit("cpu_cores");
    reveal_strlit("getconf _NPROCESSORS_ONLN 2>/dev/null");
    reveal_strlit("memory_total_mb");
    reveal_strlit("awk '/MemTotal/ {printf \"%d\", $2 / 1024}' /proc/meminfo 2>/dev/null");
    reveal_strlit("disk_total_mb");
    reveal_strlit("df -Pm / 2>/dev/null | awk 'NR==2 {print $2}'");
    reveal_strlit("uptime");
    reveal_strlit("uptime -p 2>/dev/null");
    let t0 = "printf '"@ + "hostname"@ + "=%s\\n' \"$("@ + "hostname 2>/dev/null"@;
    assert(s.subrange(0, 0 + t0.len() as int) =~= t0);
    let t1 = "printf '"@ + "os"@ + "=%s\\n' \"$("@
        + ". /etc/os-release 2>/dev/null && printf '%s' \"$PRETTY_NAME\""@;
    assert(s.subrange(49, 49 + t1.len() as int) =~= t1);
    let t2 = "printf '"@ + "arch"@ + "=%s\\n' \"$("@ + "uname -m 2>/dev/null"@;
    assert(s.subrange(131, 131 + t2.len() as int) =~= t2);
    let t3 = "printf '"@ + "cpu_cores"@ + "=%s\\n' \"$("@ + "getconf _NPROCESSORS_ONLN 2>/dev/null"@;
    assert(s.subrange(176, 176 + t3.len() as int) =~= t3);
    let t4 = "printf '"@ + "memory_total_mb"@ + "=%s\\n' \"$("@
        + "awk '/MemTotal/ {printf \"%d\", $2 / 1024}' /proc/meminfo 2>/dev/null"@;
    assert(s.subrange(264, 264 + t4.len() as int) =~= t4);
    let t5 = "printf '"@ + "disk_total_mb"@ + "=%s\\n' \"$("@
        + "df -Pm / 2>/dev/null | awk 'NR==2 {print $2}'"@;
    assert(s.subrange(367, 367 + t5.len() as int) =~= t5);
    let t6 = "printf '"@ + "uptime"@ + "=%s\\n' \"$("@ + "uptime -p 2>/dev/null"@;
    assert(s.subrange(446, 446 + t6.len() as int) =~= t6);
}

/// The shell script that prints what an inspection reads.
pub fn inspect_script() -> (r: &'static str)
    ensures
        r@ == inspection_script(),
        prints_key_from(r@, "arch"@, "uname -m 2>/dev/null"@),
{
    proof {
        law_script_commands();
    }
    "printf 'hostname=%s\\n' \"$(hostname 2>/dev/null)\"\nprintf 'os=%s\\n' \"$(. /etc/os-release 2>/dev/null && printf '%s' \"$PRETTY_NAME\")\"\nprintf 'arch=%s\\n' \"$(uname -m 2>/dev/null)\"\nprintf 'cpu_cores=%s\\n' \"$(getconf _NPROCESSORS_ONLN 2>/dev/null || nproc 2>/dev/null)\"\nprintf 'memory_total_mb=%s\\n' \"$(awk '/MemTotal/ {printf \"%d\", $2 / 1024}' /proc/meminfo 2>/dev/null)\"\nprintf 'disk_total_mb=%s\\n' \"$(df -Pm / 2>/dev/null | awk 'NR==2 {print $2}')\"\nprintf 'uptime=%s\\n' \"$(uptime -p 2>/dev/null || uptime 2>/dev/null)\""
}

/// Applies the line `v[from..to]`.
fn apply_line_exec(insp: &mut NodeInspection, v: &Vec<char>, from: usize, to: usize)
    requires
        from <= to <= v@.len(),
    ensures
        inspection_view(*final(insp)) == apply_line(inspection_view(*old(insp)), v@.subrange(from as int, to as int)),
{
    let ghost line = v@.subrange(from as int, to as int);
    let eq = match find_char(v, from, to, '=') {
        Some(k) => k,
        None => {
            return;
        },
    };
    let key = string_of(v, from, eq);
    let raw = string_of(v, eq + 1, to);
    let value = trim(raw.as_str());
    assert(key@ =~= line.subrange(0, eq - from));
    assert(raw@ =~= line.subrange(eq - from + 1, line.len() as int));
    if value.as_str().unicode_len() == 0 {
        return;
    }
    if key == owned("hostname") {
        insp.hostname = Some(value);
    } else if key == owned("os") {
        insp.os = Some(value);
    } else if key == owned("arch") {
        insp.arch = Some(value);
    } else if key == owned("cpu_cores") {
        let n = parse_bounded(&chars_of(value.as_str()), 0xffff_ffff);
        insp.cpu_cores = match n {
            Some(x) => Some(x as u32),
            None => None,
        };
    } else if key == owned("memory_total_mb") {
        insp.memory_total_mb = parse_bounded(&chars_of(value.as_str()), 0xffff_ffff_ffff_ffff);
    } else if key == owned("disk_total_mb") {
        insp.disk_total_mb = parse_bounded(&chars_of(value.as_str()), 0xffff_ffff_ffff_ffff);
    } else if key == owned("uptime") {
        insp.uptime = Some(value);
    }
}

/// Reads what the inspection script printed on the node `name`.
pub fn inspect_node(name: &str, output: &str) -> (r: NodeInspection)
    ensures
        inspection_view(r) == apply_output(blank_inspection(name@), output@),
{
    let v = chars_of(output);
    let mut insp = NodeInspection {
        name: owned(name),
        hostname: None,
        os: None,
        arch: None,
        cpu_cores: None,
        memory_total_mb: None,
        disk_total_mb: None,
        uptime: None,
    };
    let n = v.len();
    let mut p: usize = 0;
    assert(v@.subrange(0, n as int) =~= v@);
    while p < n
        invariant
            p <= n,
            n == v@.len(),
            apply_output(inspection_view(insp), v@.subrange(p as int, n as int)) == apply_output(
                blank_inspection(name@),
                output@,
            ),
        decreases n - p,
    {
        let ghost s = v@.subrange(p as int, n as int);
        let found = find_char(&v, p, n, '\n');
        match found {
            Some(k) => {
                let mut end = k;
                if end > p && v[end - 1] == '\r' {
                    end = end - 1;
                }
                proof {
                    let line = s.subrange(0, k - p);
                    assert(line =~= v@.subrange(p as int, k as int));
                    if k > p {
                        assert(line.last() == v@[k - 1]);
                    }
                    assert(without_cr(line) =~= v@.subrange(p as int, end as int));
                    assert(s.subrange(k - p + 1, s.len() as int) =~= v@.subrange(k + 1, n as int));
                }
                apply_line_exec(&mut insp, &v, p, end);
                p = k + 1;
            },
            None => {
                apply_line_exec(&mut insp, &v, p, n);
                p = n;
                assert(v@.subrange(n as int, n as int).len() == 0);
            },
        }
    }
    insp
}

} // verus!
