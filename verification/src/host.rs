//! The built-in `<host>` field: a host name with an optional port.

use vstd::prelude::*;
use crate::text::{split_seq, first_position, find_byte, split_bytes, byte_pieces};

verus! {

/// An ASCII letter or digit.
pub open spec fn is_alnum(b: u8) -> bool {
    (48 <= b <= 57) || (65 <= b <= 90) || (97 <= b <= 122)
}

/// An ASCII digit.
pub open spec fn is_digit(b: u8) -> bool {
    48 <= b <= 57
}

/// One dot-separated label of a host name: 1 to 63 bytes, letters, digits
/// and hyphens, starting and ending with a letter or digit.
pub open spec fn valid_label(label: Seq<u8>) -> bool {
    &&& 0 < label.len() <= 63
    &&& forall|i: int| 0 <= i < label.len() ==> is_alnum(#[trigger] label[i]) || label[i] == 45
    &&& is_alnum(label[0])
    &&& is_alnum(label.last())
}

/// A host name: 1 to 253 bytes whose dot-separated labels are all valid.
pub open spec fn valid_hostname(name: Seq<u8>) -> bool {
    &&& 0 < name.len() <= 253
    &&& forall|k: int|
        0 <= k < split_seq(name, 46u8).len() ==> valid_label(#[trigger] split_seq(name, 46u8)[k])
}

/// The number that the decimal digits `d` spell.
pub open spec fn decimal_value(d: Seq<u8>) -> nat
    decreases d.len(),
{
    if d.len() == 0 {
        0
    } else {
        decimal_value(d.drop_last()) * 10 + (d.last() - 48) as nat
    }
}

/// A port: one or more decimal digits whose value fits in 16 bits.
pub open spec fn valid_port(port: Seq<u8>) -> bool {
    &&& port.len() > 0
    &&& forall|i: int| 0 <= i < port.len() ==> is_digit(#[trigger] port[i])
    &&& decimal_value(port) <= 65535
}

/// `value` is a host name, optionally followed by `:` and a port; the text
/// before the first `:` is the host name and everything after it the port.
pub open spec fn valid_host(value: Seq<u8>) -> bool {
    let colon = first_position(value, 58u8);
    if colon == value.len() {
        valid_hostname(value)
    } else {
        valid_hostname(value.take(colon)) && valid_port(value.skip(colon + 1))
    }
}

proof fn lemma_decimal_grows(d: Seq<u8>, k: int)
    requires
        0 <= k <= d.len(),
        forall|i: int| 0 <= i < d.len() ==> is_digit(#[trigger] d[i]),
    ensures
        decimal_value(d.take(k)) <= decimal_value(d),
    decreases d.len() - k,
{
    if k < d.len() {
        let d1 = d.take(k + 1);
        assert(d1.drop_last() =~= d.take(k));
        assert(d1 =~= d.take(k + 1));
        lemma_decimal_grows(d, k + 1);
    } else {
        assert(d.take(k) =~= d);
    }
}

fn alnum(b: u8) -> (r: bool)
    ensures
        r == is_alnum(b),
{
    (48 <= b && b <= 57) || (65 <= b && b <= 90) || (97 <= b && b <= 122)
}

fn label_ok(label: &[u8]) -> (r: bool)
    ensures
        r == valid_label(label@),
{
    let n = label.len();
    if n == 0 || n > 63 {
        return false;
    }
    let mut i: usize = 0;
    while i < n
        invariant
            n == label@.len(),
            i <= n,
            forall|j: int| 0 <= j < i ==> is_alnum(#[trigger] label@[j]) || label@[j] == 45,
        decreases n - i,
    {
        if !(alnum(label[i]) || label[i] == 45) {
            return false;
        }
        i += 1;
    }
    alnum(label[0]) && alnum(label[n - 1])
}

fn hostname_ok(name: &[u8]) -> (r: bool)
    ensures
        r == valid_hostname(name@),
{
    if name.len() == 0 || name.len() > 253 {
        return false;
    }
    let labels = split_bytes(name, 46);
    let mut k: usize = 0;
    while k < labels.len()
        invariant
            byte_pieces(labels@) == split_seq(name@, 46u8),
            k <= labels@.len(),
            forall|j: int| 0 <= j < k ==> valid_label(#[trigger] split_seq(name@, 46u8)[j]),
        decreases labels@.len() - k,
    {
        assert(byte_pieces(labels@)[k as int] == labels@[k as int]@);
        if !label_ok(labels[k].as_slice()) {
            return false;
        }
        k += 1;
    }
    true
}

fn port_ok(port: &[u8]) -> (r: bool)
    ensures
        r == valid_port(port@),
{
    let n = port.len();
    if n == 0 {
        return false;
    }
    let mut i: usize = 0;
    while i < n
        invariant
            n == port@.len(),
            i <= n,
            forall|j: int| 0 <= j < i ==> is_digit(#[trigger] port@[j]),
        decreases n - i,
    {
        if !(48 <= port[i] && port[i] <= 57) {
            return false;
        }
        i += 1;
    }
    let mut value: u32 = 0;
    let mut i: usize = 0;
    assert(port@.take(0).len() == 0);
    while i < n
        invariant
            n == port@.len(),
            i <= n,
            forall|j: int| 0 <= j < n ==> is_digit(#[trigger] port@[j]),
            value == decimal_value(port@.take(i as int)),
            value <= 65535,
        decreases n - i,
    {
        let ghost p1 = port@.take(i as int + 1);
        assert(p1.drop_last() =~= port@.take(i as int));
        assert(p1.last() == port@[i as int]);
        value = value * 10 + (port[i] - 48) as u32;
        i += 1;
        if value > 65535 {
            proof { lemma_decimal_grows(port@, i as int); }
            return false;
        }
    }
    assert(port@.take(n as int) =~= port@);
    true
}

/// Whether `value` is a host name with an optional port (see [`valid_host`]).
pub fn host_matches(value: &str) -> (r: bool)
    ensures
        r == valid_host(vstd::utf8::encode_utf8(value@)),
{
    let bytes = value.as_bytes();
    let colon = find_byte(bytes, 58);
    if colon == bytes.len() {
        hostname_ok(bytes)
    } else {
        let hostname = vstd::slice::slice_subrange(bytes, 0, colon);
        let port = vstd::slice::slice_subrange(bytes, colon + 1, bytes.len());
        assert(hostname@ =~= bytes@.take(colon as int));
        assert(port@ =~= bytes@.skip(colon as int + 1));
        hostname_ok(hostname) && port_ok(port)
    }
}

} // verus!
