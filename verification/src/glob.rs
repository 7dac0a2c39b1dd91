//! Wildcard matching within one path segment.

use vstd::prelude::*;
use crate::text::chars_of;

verus! {

/// Whether `value` matches the wildcard `pattern`: `*` matches any run of
/// characters (also an empty one), `?` matches exactly one character, and
/// every other character matches only itself.
pub open spec fn glob_match(pattern: Seq<char>, value: Seq<char>) -> bool
    decreases pattern.len(), value.len(),
{
    if pattern.len() == 0 {
        value.len() == 0
    } else if pattern.last() == '*' {
        glob_match(pattern.drop_last(), value) || (value.len() > 0 && glob_match(
            pattern,
            value.drop_last(),
        ))
    } else {
        value.len() > 0 && (pattern.last() == '?' || pattern.last() == value.last())
            && glob_match(pattern.drop_last(), value.drop_last())
    }
}

/// Whether `value` matches the wildcard `pattern` (see [`glob_match`]).
pub fn glob_matches(pattern: &str, value: &str) -> (r: bool)
    ensures
        r == glob_match(pattern@, value@),
{
    let pattern = chars_of(pattern);
    let value = chars_of(value);
    let n = value.len();
    let mut previous: Vec<bool> = Vec::new();
    previous.push(true);
    while previous.len() <= n
        invariant
            previous.len() >= 1,
            previous.len() <= n + 1,
            n == value@.len(),
            previous@[0] == true,
            forall|j: int| 1 <= j < previous.len() ==> previous@[j] == false,
        decreases n + 1 - previous.len(),
    {
        previous.push(false);
    }
    assert forall|j: int| 0 <= j <= n implies previous@[j] == glob_match(
        pattern@.take(0),
        value@.take(j),
    ) by {
        assert(pattern@.take(0).len() == 0);
    }
    let mut i: usize = 0;
    while i < pattern.len()
        invariant
            i <= pattern@.len(),
            n == value@.len(),
            previous.len() == n + 1,
            forall|j: int| 0 <= j <= n ==> previous@[j] == glob_match(
                pattern@.take(i as int),
                value@.take(j),
            ),
        decreases pattern@.len() - i,
    {
        let token = pattern[i];
        let ghost p1 = pattern@.take(i as int + 1);
        assert(p1.drop_last() =~= pattern@.take(i as int));
        assert(p1.last() == token);
        let mut current: Vec<bool> = Vec::new();
        if token == '*' {
            current.push(previous[0]);
            assert(value@.take(0).len() == 0);
            let mut index: usize = 1;
            while index <= n
                invariant
                    1 <= index <= n + 1,
                    n == value@.len(),
                    previous.len() == n + 1,
                    current.len() == index,
                    token == '*',
                    p1.last() == '*',
                    p1.drop_last() =~= pattern@.take(i as int),
                    p1.len() > 0,
                    forall|j: int| 0 <= j <= n ==> previous@[j] == glob_match(
                        pattern@.take(i as int),
                        value@.take(j),
                    ),
                    forall|j: int| 0 <= j < index ==> current@[j] == glob_match(
                        p1,
                        value@.take(j),
                    ),
                decreases n + 1 - index,
            {
                let ghost v1 = value@.take(index as int);
                assert(v1.drop_last() =~= value@.take(index as int - 1));
                let cell = previous[index] || current[index - 1];
                current.push(cell);
                index += 1;
            }
        } else {
            current.push(false);
            assert(value@.take(0).len() == 0);
            let mut index: usize = 1;
            while index <= n
                invariant
                    1 <= index <= n + 1,
                    n == value@.len(),
                    previous.len() == n + 1,
                    current.len() == index,
                    token != '*',
                    p1.last() == token,
                    p1.drop_last() =~= pattern@.take(i as int),
                    p1.len() > 0,
                    forall|j: int| 0 <= j <= n ==> previous@[j] == glob_match(
                        pattern@.take(i as int),
                        value@.take(j),
                    ),
                    forall|j: int| 0 <= j < index ==> current@[j] == glob_match(
                        p1,
                        value@.take(j),
                    ),
                decreases n + 1 - index,
            {
                let ghost v1 = value@.take(index as int);
                assert(v1.drop_last() =~= value@.take(index as int - 1));
                assert(v1.last() == value@[index as int - 1]);
                let cell = previous[index - 1] && (token == '?' || token == value[index - 1]);
                current.push(cell);
                index += 1;
            }
        }
        previous = current;
        i += 1;
    }
    assert(pattern@.take(pattern@.len() as int) =~= pattern@);
    assert(value@.take(n as int) =~= value@);
    previous[n]
}

} // verus!
