//! Lines of `strace --timestamps=unix,ns` output, as the log shipper reads
//! them: a decimal timestamp in seconds, a space, and the message.

use vstd::prelude::*;
use vstd::string::StrSliceExecFns;

verus! {

/// `c` is a decimal digit.
pub open spec fn is_digit(c: char) -> bool {
    '0' <= c && c <= '9'
}

/// `s` is one or more digits, a dot, and one or more digits.
pub open spec fn is_decimal(s: Seq<char>) -> bool {
    exists|d: int| {
        &&& 0 < d < s.len() - 1
        &&& s[d] == '.'
        &&& forall|i: int| 0 <= i < s.len() && i != d ==> is_digit(#[trigger] s[i])
    }
}

/// The line `s` is a timestamp and a message, split at position `k`: the
/// timestamp `s[..k]` is decimal, a space follows, and the message after it
/// has at least one character and no line feed.
pub open spec fn splits_at(s: Seq<char>, k: int) -> bool {
    &&& 0 <= k < s.len() - 1
    &&& s[k] == ' '
    &&& is_decimal(s.take(k))
    &&& forall|i: int| k < i < s.len() ==> #[trigger] s[i] != '\n'
}

/// A line splits in at most one way: at its first space.
pub proof fn lemma_split_unique(s: Seq<char>, k: int, m: int)
    requires
        splits_at(s, k),
        splits_at(s, m),
    ensures
        k == m,
{
    if k < m {
        assert(s.take(m)[k] == s[k]);
        assert(!is_digit(' '));
    } else if m < k {
        assert(s.take(k)[m] == s[m]);
        assert(!is_digit(' '));
    }
}

/// The index of the first space of `line`, if it has one.
fn first_space(line: &str) -> (r: Option<usize>)
    ensures
        r is None ==> forall|i: int| 0 <= i < line@.len() ==> line@[i] != ' ',
        r matches Some(k) ==> k < line@.len() && line@[k as int] == ' '
            && forall|i: int| 0 <= i < k ==> line@[i] != ' ',
{
    let n: usize = line.unicode_len();
    let mut i: usize = 0;
    while i < n
        invariant
            n == line@.len(),
            0 <= i <= n,
            forall|j: int| 0 <= j < i ==> line@[j] != ' ',
        decreases n - i,
    {
        if line.get_char(i) == ' ' {
            return Some(i);
        }
        i = i + 1;
    }
    None
}

/// Whether the characters `line[..k]` are a decimal number with a dot.
fn decimal_prefix(line: &str, k: usize) -> (r: bool)
    requires
        k <= line@.len(),
    ensures
        r == is_decimal(line@.take(k as int)),
{
    let ghost s = line@.take(k as int);
    let mut dot: Option<usize> = None;
    let mut ok = true;
    let mut i: usize = 0;
    while i < k
        invariant
            k <= line@.len(),
            s == line@.take(k as int),
            0 <= i <= k,
            ok ==> match dot {
                Some(d) => d < i && s[d as int] == '.' && forall|j: int| 0 <= j < i && j != d ==> is_digit(#[trigger] s[j]),
                None => forall|j: int| 0 <= j < i ==> is_digit(#[trigger] s[j]),
            },
            !ok ==> !is_decimal(s),
        decreases k - i,
    {
        let c = line.get_char(i);
        assert(s[i as int] == c);
        if ok {
            if c == '.' {
                if dot.is_some() {
                    proof {
                        let d0 = dot->Some_0 as int;
                        assert forall|d: int| 0 < d < s.len() - 1 && s[d] == '.' implies
                            !(forall|j: int| 0 <= j < s.len() && j != d ==> is_digit(#[trigger] s[j])) by {
                            if d != i {
                                assert(!is_digit(s[i as int]));
                            } else {
                                assert(!is_digit(s[d0]));
                            }
                        }
                    }
                    ok = false;
                } else {
                    dot = Some(i);
                }
            } else if !('0' <= c && c <= '9') {
                proof {
                    assert forall|d: int| 0 < d < s.len() - 1 && s[d] == '.' implies
                        !(forall|j: int| 0 <= j < s.len() && j != d ==> is_digit(#[trigger] s[j])) by {
                        assert(d != i);
                        assert(!is_digit(s[i as int]));
                    }
                }
                ok = false;
            }
        }
        i = i + 1;
    }
    if !ok {
        return false;
    }
    match dot {
        Some(d) => {
            let r = 0 < d && d + 1 < k;
            proof {
                if !r {
                    assert forall|d2: int| 0 < d2 < s.len() - 1 && s[d2] == '.' implies
                        !(forall|j: int| 0 <= j < s.len() && j != d2 ==> is_digit(#[trigger] s[j])) by {
                        assert(d2 != d);
                        assert(!is_digit(s[d as int]));
                    }
                }
            }
            r
        },
        None => {
            proof {
                assert forall|d2: int| 0 < d2 < s.len() - 1 && s[d2] == '.' implies
                    !(forall|j: int| 0 <= j < s.len() && j != d2 ==> is_digit(#[trigger] s[j])) by {
                    assert(is_digit(s[d2]));
                }
            }
            false
        },
    }
}

/// Split a line of strace output into its timestamp and its message; `None`
/// when the line has another form.
pub fn split_line(line: &str) -> (r: Option<(String, String)>)
    ensures
        r is None <==> !exists|k: int| splits_at(line@, k),
        r matches Some((timestamp, message)) ==> exists|k: int| {
            &&& #[trigger] splits_at(line@, k)
            &&& timestamp@ == line@.take(k)
            &&& message@ == line@.skip(k + 1)
        },
{
    let n: usize = line.unicode_len();
    match first_space(line) {
        None => {
            proof {
                assert forall|k: int| !splits_at(line@, k) by {
                    if 0 <= k < line@.len() {
                        assert(line@[k] != ' ');
                    }
                }
            }
            None
        },
        Some(k) => {
            if k + 1 >= n || !decimal_prefix(line, k) {
                proof {
                    assert forall|m: int| !splits_at(line@, m) by {
                        if splits_at(line@, m) {
                            if m > k {
                                assert(line@.take(m)[k as int] == ' ');
                                assert(!is_digit(' '));
                            }
                        }
                    }
                }
                return None;
            }
            let mut i: usize = k + 1;
            while i < n
                invariant
                    n == line@.len(),
                    k + 1 < n,
                    line@[k as int] == ' ',
                    is_decimal(line@.take(k as int)),
                    forall|j: int| 0 <= j < k ==> line@[j] != ' ',
                    k + 1 <= i <= n,
                    forall|j: int| k < j < i ==> line@[j] != '\n',
                decreases n - i,
            {
                if line.get_char(i) == '\n' {
                    proof {
                        assert forall|m: int| !splits_at(line@, m) by {
                            if splits_at(line@, m) {
                                if m > k {
                                    assert(line@.take(m)[k as int] == ' ');
                                    assert(!is_digit(' '));
                                }
                                assert(m == k);
                            }
                        }
                    }
                    return None;
                }
                i = i + 1;
            }
            let timestamp = line.substring_char(0, k).to_owned();
            let message = line.substring_char(k + 1, n).to_owned();
            proof {
                assert(splits_at(line@, k as int));
                assert(timestamp@ =~= line@.take(k as int));
                assert(message@ =~= line@.skip(k + 1));
            }
            Some((timestamp, message))
        },
    }
}

} // verus!
