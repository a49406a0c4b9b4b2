use vstd::prelude::*;

verus! {

/// Whether `p` occurs in `s` as a contiguous substring.
pub open spec fn contains_str(s: Seq<char>, p: Seq<char>) -> bool {
    exists|off: int|
        0 <= off <= s.len() - p.len() && (#[trigger] s.subrange(off, off + p.len())) == p
}

/// A scannable source file name: not hidden (no leading dot), and a C++
/// implementation or header extension.
pub open spec fn valid_file_name(s: Seq<char>) -> bool {
    &&& !(s.len() >= 1 && s[0] == '.')
    &&& (ends_cpp(s) || ends_h(s))
}

pub open spec fn ends_cpp(s: Seq<char>) -> bool {
    s.len() >= 4 && s[s.len() - 4] == '.' && s[s.len() - 3] == 'c' && s[s.len() - 2] == 'p'
        && s[s.len() - 1] == 'p'
}

pub open spec fn ends_h(s: Seq<char>) -> bool {
    s.len() >= 2 && s[s.len() - 2] == '.' && s[s.len() - 1] == 'h'
}

/// The path fragments that exclude a directory entry from the scan:
/// generated, intermediate and third-party trees, and generated headers.
pub open spec fn black_list_spec() -> Seq<Seq<char>> {
    seq![
        "Intermediate"@,
        "Plugins"@,
        "TestAutomationCore"@,
        "Binaries"@,
        "TestData"@,
        "generated.h"@,
    ]
}

/// A path is blacklisted when it contains any of the blacklist fragments.
pub open spec fn blacklisted(s: Seq<char>) -> bool {
    exists|k: int| 0 <= k < black_list_spec().len() && contains_str(s, #[trigger] black_list_spec()[k])
}

/// Whether `p` occurs in `s` as a contiguous substring.
fn str_contains_sub(s: &str, p: &str) -> (r: bool)
    ensures
        r == contains_str(s@, p@),
{
    let n = s.unicode_len();
    let m = p.unicode_len();
    if m == 0 {
        proof {
            assert(contains_str(s@, p@)) by {
                assert((s@.subrange(0, 0 + p@.len() as int)) =~= p@);
            }
        }
        return true;
    }
    if m > n {
        return false;
    }
    let last_off = n - m;
    let mut off: usize = 0;
    while off <= last_off
        invariant
            n == s@.len(),
            m == p@.len(),
            0 < m <= n,
            last_off == n - m,
            off <= last_off + 1,
            forall|o: int| 0 <= o < off ==> (#[trigger] s@.subrange(o, o + p@.len() as int)) != p@,
        decreases last_off + 1 - off,
    {
        let mut j: usize = 0;
        while j < m && s.get_char(off + j) == p.get_char(j)
            invariant
                n == s@.len(),
                m == p@.len(),
                off + m <= n,
                j <= m,
                forall|t: int| 0 <= t < j ==> s@[off + t] == p@[t],
            decreases m - j,
        {
            j = j + 1;
        }
        if j == m {
            proof {
                assert(contains_str(s@, p@)) by {
                    assert((s@.subrange(off as int, off as int + p@.len() as int)) =~= p@);
                }
            }
            return true;
        }
        proof {
            assert(s@.subrange(off as int, off as int + p@.len() as int) != p@) by {
                assert(s@.subrange(off as int, off as int + p@.len() as int)[j as int] == s@[off
                    + j]);
                assert(s@[off + j] != p@[j as int]);
            }
        }
        off = off + 1;
    }
    false
}

/// Scanner configuration: the base path of the tree to walk, and how many
/// files were already handed out. Walking the tree itself is the job of the
/// surrounding program; the predicates below decide what it keeps.
pub struct ProjectScanner {
    base_path: String,
    processed_files: u64,
}

impl ProjectScanner {
    /// The base path of the scan.
    pub closed spec fn base(self) -> Seq<char> {
        self.base_path@
    }

    /// How many files this scanner has handed out so far.
    pub closed spec fn processed(self) -> u64 {
        self.processed_files
    }

    pub fn make(base_path: &str) -> (r: Result<ProjectScanner, &'static str>)
        ensures
            r is Ok,
            r matches Ok(p) ==> p.base() == base_path@ && p.processed() == 0,
    {
        Ok(ProjectScanner { base_path: base_path.to_owned(), processed_files: 0u64 })
    }

    pub fn get_base_path(&self) -> (r: &str)
        ensures
            r@ == self.base(),
    {
        self.base_path.as_str()
    }

    /// Counts one handed-out file, saturating at the counter's maximum.
    pub fn on_processed_file(&mut self)
        ensures
            final(self).base() == old(self).base(),
            final(self).processed() as int == if old(self).processed() < u64::MAX {
                old(self).processed() as int + 1
            } else {
                old(self).processed() as int
            },
    {
        if self.processed_files < u64::MAX {
            self.processed_files = self.processed_files + 1;
        }
    }

    /// A file name the scan keeps: not hidden, with a `.cpp` or `.h` ending.
    pub fn is_valid_file_name(path: &str) -> (r: bool)
        ensures
            r == valid_file_name(path@),
    {
        let n = path.unicode_len();
        let hidden = n >= 1 && path.get_char(0) == '.';
        let cpp = n >= 4 && path.get_char(n - 4) == '.' && path.get_char(n - 3) == 'c'
            && path.get_char(n - 2) == 'p' && path.get_char(n - 1) == 'p';
        let h = n >= 2 && path.get_char(n - 2) == '.' && path.get_char(n - 1) == 'h';
        !hidden && (cpp || h)
    }

    /// A path the scan may enter: one that is not blacklisted.
    pub fn is_valid_file_path(path: &str) -> (r: bool)
        ensures
            r == !blacklisted(path@),
    {
        !Self::is_blacklisted(path)
    }

    /// Whether the path contains any blacklisted fragment.
    pub fn is_blacklisted(entry: &str) -> (r: bool)
        ensures
            r == blacklisted(entry@),
    {
        let items = black_list();
        let n = items.len();
        let mut k: usize = 0;
        while k < n
            invariant
                n == items@.len(),
                k <= n,
                items@.map_values(|s: String| s@) == black_list_spec(),
                forall|t: int| 0 <= t < k ==> !contains_str(entry@, black_list_spec()[t]),
            decreases n - k,
        {
            if str_contains_sub(entry, items[k].as_str()) {
                proof {
                    assert(items@[k as int]@ == black_list_spec()[k as int]);
                    assert(contains_str(entry@, black_list_spec()[k as int]));
                }
                return true;
            }
            proof {
                assert(items@[k as int]@ == black_list_spec()[k as int]);
            }
            k = k + 1;
        }
        false
    }
}

/// The blacklist as runtime values.
fn black_list() -> (r: Vec<String>)
    ensures
        r@.map_values(|s: String| s@) == black_list_spec(),
{
    let mut v: Vec<String> = Vec::new();
    v.push("Intermediate".to_owned());
    v.push("Plugins".to_owned());
    v.push("TestAutomationCore".to_owned());
    v.push("Binaries".to_owned());
    v.push("TestData".to_owned());
    v.push("generated.h".to_owned());
    proof {
        assert(v@.map_values(|s: String| s@) =~= black_list_spec());
    }
    v
}

} // verus!
