//! Command-line rewriting for the re-executed inner run.
//!
//! When the outer process re-executes itself through a helper that supplies the USB
//! descriptor, it hands the inner run its own arguments minus the `--device <path>` option
//! (also written `--device=<path>`), which only the outer run acts on.

use vstd::prelude::*;
use vstd::string::StrSliceExecFns;

verus! {

/// Whether `prefix` is a prefix of `s`, character by character.
pub open spec fn chars_prefix(prefix: Seq<char>, s: Seq<char>) -> bool {
    prefix.len() <= s.len() && s.subrange(0, prefix.len() as int) == prefix
}

/// The arguments with every `--device <value>` pair and every `--device=<value>` argument
/// removed; a trailing `--device` with no value is removed too.
pub open spec fn strip_device_spec(args: Seq<Seq<char>>) -> Seq<Seq<char>>
    decreases args.len(),
{
    if args.len() == 0 {
        Seq::empty()
    } else if args[0] == "--device"@ {
        if args.len() >= 2 {
            strip_device_spec(args.skip(2))
        } else {
            Seq::empty()
        }
    } else if chars_prefix("--device="@, args[0]) {
        strip_device_spec(args.skip(1))
    } else {
        seq![args[0]] + strip_device_spec(args.skip(1))
    }
}

/// The character sequences of a list of strings.
pub open spec fn strings_view(v: Seq<String>) -> Seq<Seq<char>> {
    v.map_values(|s: String| s@)
}

/// Whether an argument is the `--device` option itself or its `--device=<value>` form.
pub open spec fn is_device_option(arg: Seq<char>) -> bool {
    arg == "--device"@ || chars_prefix("--device="@, arg)
}

/// No `--device` option survives: no argument left is `--device` or `--device=<value>`.
pub proof fn lemma_strip_removes_device(args: Seq<Seq<char>>)
    ensures
        forall|i: int|
            0 <= i < strip_device_spec(args).len() ==> !is_device_option(
                #[trigger] strip_device_spec(args)[i],
            ),
    decreases args.len(),
{
    if args.len() > 0 {
        if args[0] == "--device"@ {
            if args.len() >= 2 {
                lemma_strip_removes_device(args.skip(2));
                assert(strip_device_spec(args) == strip_device_spec(args.skip(2)));
            } else {
                assert(strip_device_spec(args).len() == 0);
            }
        } else {
            lemma_strip_removes_device(args.skip(1));
            let rest = strip_device_spec(args.skip(1));
            if chars_prefix("--device="@, args[0]) {
                assert(strip_device_spec(args) == rest);
            } else {
                assert forall|i: int| 0 <= i < strip_device_spec(args).len() implies !is_device_option(
                    #[trigger] strip_device_spec(args)[i],
                ) by {
                    assert(strip_device_spec(args) == seq![args[0]] + rest);
                    if i > 0 {
                        assert(strip_device_spec(args)[i] == rest[i - 1]);
                    } else {
                        assert(strip_device_spec(args)[i] == args[0]);
                    }
                }
            }
        }
    }
}

/// Arguments holding no `--device` option pass through unchanged.
pub proof fn lemma_strip_keeps_plain(args: Seq<Seq<char>>)
    requires
        forall|i: int| 0 <= i < args.len() ==> !is_device_option(#[trigger] args[i]),
    ensures
        strip_device_spec(args) == args,
    decreases args.len(),
{
    if args.len() > 0 {
        assert(!is_device_option(args[0]));
        let t = args.skip(1);
        assert forall|i: int| 0 <= i < t.len() implies !is_device_option(#[trigger] t[i]) by {
            assert(t[i] == args[i + 1]);
        }
        lemma_strip_keeps_plain(t);
        assert(seq![args[0]] + t =~= args);
    }
}

/// Stripping is idempotent: stripping an already stripped argument list changes nothing.
pub proof fn lemma_strip_idempotent(args: Seq<Seq<char>>)
    ensures
        strip_device_spec(strip_device_spec(args)) == strip_device_spec(args),
{
    lemma_strip_removes_device(args);
    lemma_strip_keeps_plain(strip_device_spec(args));
}

/// Whether a left-to-right scan of `args` ends inside a `--device` option still waiting for
/// its value: the list ends with a `--device` that is not itself the value of an earlier
/// `--device`.
pub open spec fn device_value_pending(args: Seq<Seq<char>>) -> bool
    decreases args.len(),
{
    if args.len() == 0 {
        false
    } else if args[0] == "--device"@ {
        args.len() < 2 || device_value_pending(args.skip(2))
    } else {
        device_value_pending(args.skip(1))
    }
}

/// Stripping works piece by piece: when `a` does not end waiting for a `--device` value,
/// stripping `a` followed by `b` gives the stripped `a` followed by the stripped `b`.
pub proof fn lemma_strip_concat(a: Seq<Seq<char>>, b: Seq<Seq<char>>)
    requires
        !device_value_pending(a),
    ensures
        strip_device_spec(a + b) == strip_device_spec(a) + strip_device_spec(b),
    decreases a.len(),
{
    if a.len() == 0 {
        assert(a + b =~= b);
        assert(Seq::<Seq<char>>::empty() + strip_device_spec(b) =~= strip_device_spec(b));
    } else if a[0] == "--device"@ {
        assert((a + b)[0] == a[0]);
        assert((a + b).skip(2) =~= a.skip(2) + b);
        lemma_strip_concat(a.skip(2), b);
    } else {
        assert((a + b)[0] == a[0]);
        assert((a + b).skip(1) =~= a.skip(1) + b);
        lemma_strip_concat(a.skip(1), b);
        if !chars_prefix("--device="@, a[0]) {
            assert(seq![a[0]] + (strip_device_spec(a.skip(1)) + strip_device_spec(b)) =~= (seq![
                a[0],
            ] + strip_device_spec(a.skip(1))) + strip_device_spec(b));
        }
    }
}

/// A `--device` option always takes its value with it, wherever the pair stands: for any
/// arguments `a` before it (not themselves ending in a `--device` still waiting for its
/// value), any value `v` and any arguments `b` after it, stripping `a`, `--device`, `v`, `b`
/// gives the stripped `a` followed by the stripped `b`; neither `--device` nor `v` survives.
pub proof fn lemma_strip_drops_device_pair(a: Seq<Seq<char>>, v: Seq<char>, b: Seq<Seq<char>>)
    requires
        !device_value_pending(a),
    ensures
        strip_device_spec(a + seq!["--device"@, v] + b) == strip_device_spec(a)
            + strip_device_spec(b),
{
    let pair_b = seq!["--device"@, v] + b;
    assert(a + seq!["--device"@, v] + b =~= a + pair_b);
    lemma_strip_concat(a, pair_b);
    assert(pair_b[0] == "--device"@);
    assert(pair_b.skip(2) =~= b);
    assert(strip_device_spec(pair_b) == strip_device_spec(b));
}

/// An argument list with no bare `--device` never ends waiting for a value, so the pair law
/// above applies to it.
pub proof fn lemma_no_bare_device_not_pending(a: Seq<Seq<char>>)
    requires
        forall|i: int| 0 <= i < a.len() ==> #[trigger] a[i] != "--device"@,
    ensures
        !device_value_pending(a),
    decreases a.len(),
{
    if a.len() > 0 {
        let t = a.skip(1);
        assert forall|i: int| 0 <= i < t.len() implies #[trigger] t[i] != "--device"@ by {
            assert(t[i] == a[i + 1]);
        }
        lemma_no_bare_device_not_pending(t);
    }
}

/// Whether `s` starts with `prefix`.
fn has_prefix(s: &str, prefix: &str) -> (r: bool)
    ensures
        r == chars_prefix(prefix@, s@),
{
    let n = prefix.unicode_len();
    let m = s.unicode_len();
    if n > m {
        return false;
    }
    for i in 0..n
        invariant
            n == prefix@.len(),
            m == s@.len(),
            n <= m,
            forall|k: int| 0 <= k < i ==> s@[k] == prefix@[k],
    {
        if s.get_char(i) != prefix.get_char(i) {
            return false;
        }
    }
    assert(s@.subrange(0, n as int) =~= prefix@);
    true
}

/// Whether `a` and `b` hold the same characters.
fn same_chars(a: &str, b: &str) -> (r: bool)
    ensures
        r == (a@ == b@),
{
    let la = a.unicode_len();
    let lb = b.unicode_len();
    if la != lb {
        return false;
    }
    let r = has_prefix(a, b);
    proof {
        assert(a@ =~= a@.subrange(0, b@.len() as int));
    }
    r
}

/// Drop `--device <path>` (and the `--device=<path>` form) from an argument list.
pub fn strip_device_arg(args: &[String]) -> (out: Vec<String>)
    ensures
        strings_view(out@) == strip_device_spec(strings_view(args@)),
{
    let ghost all = strings_view(args@);
    let mut out: Vec<String> = Vec::new();
    let mut skip_value = false;
    let n = args.len();
    proof {
        assert(all.skip(0) =~= all);
        assert(strings_view(out@) =~= Seq::<Seq<char>>::empty());
    }
    for i in 0..n
        invariant
            n == args@.len(),
            all == strings_view(args@),
            !skip_value ==> strings_view(out@) + strip_device_spec(all.skip(i as int))
                == strip_device_spec(all),
            skip_value ==> i < n ==> strings_view(out@) + strip_device_spec(all.skip(i + 1))
                == strip_device_spec(all),
            skip_value ==> i == n ==> strings_view(out@) == strip_device_spec(all),
    {
        let arg = &args[i];
        let ghost rest = all.skip(i as int);
        proof {
            assert(rest[0] == arg@);
            assert(rest.skip(1) =~= all.skip(i + 1));
            assert(i + 2 <= n ==> rest.skip(2) =~= all.skip(i + 2));
        }
        if skip_value {
            skip_value = false;
        } else if same_chars(arg.as_str(), "--device") {
            skip_value = true;
            proof {
                if i + 1 == n {
                    assert(rest.len() == 1);
                    assert(strings_view(out@) + Seq::empty() =~= strings_view(out@));
                }
            }
        } else if !has_prefix(arg.as_str(), "--device=") {
            let ghost before = strings_view(out@);
            out.push(arg.clone());
            proof {
                assert(strings_view(out@) =~= before.push(arg@));
                assert(before.push(arg@) + strip_device_spec(all.skip(i + 1)) =~= before + (seq![
                    arg@,
                ] + strip_device_spec(all.skip(i + 1))));
            }
        }
    }
    proof {
        if !skip_value {
            assert(all.skip(n as int) =~= Seq::<Seq<char>>::empty());
            assert(strings_view(out@) + Seq::empty() =~= strings_view(out@));
        }
    }
    out
}

} // verus!
