//! What paths and keys are made of.

use vstd::prelude::*;
use crate::text;
use crate::types;

verus! {

/// This many slashes.
pub open spec fn slashes(n: nat) -> Seq<char> {
    Seq::new(n, |i: int| '/')
}

/// Trimming the front of a text takes off slashes and nothing else, and all of
/// them that are there.
pub proof fn only_leading_slashes_go(s: Seq<char>) -> (n: nat)
    ensures
        s == slashes(n) + text::trim_start(s),
        text::trim_start(s).len() > 0 ==> text::trim_start(s)[0] != '/',
    decreases s.len(),
{
    if s.len() > 0 && s[0] == '/' {
        let n = only_leading_slashes_go(s.drop_first());
        assert(s =~= seq!['/'] + s.drop_first());
        assert(slashes(n + 1) =~= seq!['/'] + slashes(n));
        assert(s =~= slashes(n + 1) + text::trim_start(s));
        n + 1
    } else {
        assert(s =~= slashes(0) + s);
        0
    }
}

/// Trimming the end of a text takes off slashes and nothing else, and all of
/// them that are there.
pub proof fn only_trailing_slashes_go(s: Seq<char>) -> (n: nat)
    ensures
        s == text::trim_end(s) + slashes(n),
        text::trim_end(s).len() > 0 ==> text::trim_end(s)[text::trim_end(s).len() - 1] != '/',
    decreases s.len(),
{
    if s.len() > 0 && s.last() == '/' {
        let n = only_trailing_slashes_go(s.drop_last());
        assert(s =~= s.drop_last().push('/'));
        assert(slashes(n + 1) =~= slashes(n).push('/'));
        assert(s =~= text::trim_end(s) + slashes(n + 1));
        n + 1
    } else {
        assert(s =~= s + slashes(0));
        0
    }
}

/// Leading slashes make no difference to what is left without them.
pub proof fn leading_slashes_do_not_matter(n: nat, s: Seq<char>)
    ensures
        text::trim_start(slashes(n) + s) == text::trim_start(s),
    decreases n,
{
    if n == 0 {
        assert(slashes(0) + s =~= s);
    } else {
        leading_slashes_do_not_matter((n - 1) as nat, s);
        assert((slashes(n) + s).drop_first() =~= slashes((n - 1) as nat) + s);
    }
}

/// Trailing slashes make no difference to what is left without them.
pub proof fn trailing_slashes_do_not_matter(n: nat, s: Seq<char>)
    ensures
        text::trim_end(s + slashes(n)) == text::trim_end(s),
    decreases n,
{
    if n == 0 {
        assert(s + slashes(0) =~= s);
    } else {
        trailing_slashes_do_not_matter((n - 1) as nat, s);
        assert((s + slashes(n)).drop_last() =~= s + slashes((n - 1) as nat));
    }
}

/// A joined path is its base, then what is relative to it, with a slash between
/// them where the base has none.
pub proof fn joined_path_is_base_and_rest(base: Seq<char>, relative: Seq<char>)
    ensures
        ({
            let j = text::joined(base, relative);
            let n = j.len() - relative.len();
            &&& n == base.len() || n == base.len() + 1
            &&& j.take(base.len() as int) == base
            &&& j.skip(n) == relative
            &&& n == base.len() + 1 ==> j[base.len() as int] == '/' && base.len() > 0 && base[
                base.len() - 1] != '/'
            &&& n == base.len() && base.len() > 0 ==> base[base.len() - 1] == '/'
        }),
{
    let j = text::joined(base, relative);
    let n = j.len() - relative.len();
    assert(j.take(base.len() as int) =~= base);
    assert(j.skip(n) =~= relative);
}

/// The prefix of a cloud key is the base prefix without the slashes round it,
/// and one slash behind it; without a base prefix there is none.
pub proof fn cloud_prefix_has_one_slash(base: Seq<char>, n: nat, m: nat)
    requires
        base.len() > 0 ==> base[0] != '/' && base[base.len() - 1] != '/',
    ensures
        base.len() > 0 ==> types::cloud_prefix(slashes(n) + base + slashes(m)) == base + seq!['/'],
        base.len() == 0 ==> types::cloud_prefix(slashes(n) + base + slashes(m)).len() == 0,
{
    leading_slashes_do_not_matter(n, base + slashes(m));
    assert(slashes(n) + base + slashes(m) =~= slashes(n) + (base + slashes(m)));
    if base.len() > 0 {
        assert((base + slashes(m))[0] != '/');
        assert(text::trim_start(base + slashes(m)) == base + slashes(m));
        trailing_slashes_do_not_matter(m, base);
        assert(text::trim_end(base) == base);
        assert(base.push('/') =~= base + seq!['/']);
    } else {
        leading_slashes_do_not_matter(m, Seq::empty());
        assert(base + slashes(m) =~= slashes(m) + Seq::<char>::empty());
        assert(text::trim_start(Seq::<char>::empty()).len() == 0);
    }
}

/// A cloud key is the prefix, the queue, and the file, with one slash behind
/// each but the last, whatever slashes were in front of them.
pub proof fn cloud_key_is_prefix_queue_file(
    base: Seq<char>,
    queue: Seq<char>,
    file: Seq<char>,
    n: nat,
    m: nat,
)
    requires
        queue.len() > 0 ==> queue[0] != '/',
        file.len() > 0 ==> file[0] != '/',
    ensures
        types::cloud_queue_path(base, slashes(n) + queue) == types::cloud_prefix(base) + queue
            + seq!['/'],
        types::cloud_key(base, slashes(n) + queue, slashes(m) + file) == types::cloud_prefix(base)
            + queue + seq!['/'] + file,
{
    leading_slashes_do_not_matter(n, queue);
    leading_slashes_do_not_matter(m, file);
    assert(text::trim_start(queue) == queue);
    assert(text::trim_start(file) == file);
    let p = types::cloud_prefix(base) + queue;
    assert(p.push('/') =~= p + seq!['/']);
}

/// A path that begins with a slash is left as it is. Any other is put behind
/// the instance, so that the paths of two instances differ.
pub proof fn relative_path_belongs_to_its_instance(
    instance: Seq<char>,
    other: Seq<char>,
    path: Seq<char>,
)
    ensures
        path.len() > 0 && path[0] == '/' ==> types::resolved(instance, path) == path,
        path.len() == 0 || path[0] != '/' ==> {
            let r = types::resolved(instance, path);
            &&& r.len() == instance.len() + path.len() + 2
            &&& r[0] == '/'
            &&& r.subrange(1, 1 + instance.len() as int) == instance
            &&& r[1 + instance.len() as int] == '/'
            &&& r.skip(2 + instance.len() as int) == path
            &&& r == types::resolved(other, path) ==> instance == other
        },
{
    if path.len() == 0 || path[0] != '/' {
        let r = types::resolved(instance, path);
        let q = types::resolved(other, path);
        assert(r.subrange(1, 1 + instance.len() as int) =~= instance);
        assert(r.skip(2 + instance.len() as int) =~= path);
        if r == q {
            assert(q.len() == other.len() + path.len() + 2);
            assert(q.subrange(1, 1 + other.len() as int) =~= other);
        }
    }
}

// ---------------------------------------------------------------------------
// Numbers in text.

/// The number that decimal digits denote.
pub open spec fn denoted(s: Seq<char>) -> int
    decreases s.len(),
{
    if s.len() == 0 {
        0
    } else {
        10 * denoted(s.drop_last()) + (s.last() as int - '0' as int)
    }
}

/// A number in text denotes that number, in digits only and without a leading
/// zero.
pub proof fn decimal_text_denotes_its_number(v: nat)
    ensures
        denoted(text::decimal(v)) == v,
        text::decimal(v).len() > 0,
        text::decimal(v).len() > 1 ==> text::decimal(v)[0] != '0',
        forall|i: int|
            0 <= i < text::decimal(v).len() ==> '0' as int <= #[trigger] text::decimal(
                v,
            )[i] as int <= '9' as int,
    decreases v,
{
    let s = text::decimal(v);
    if v < 10 {
        assert(s.drop_last() =~= Seq::<char>::empty());
        assert(denoted(s.drop_last()) == 0);
        assert(s.last() as int == 48 + v);
    } else {
        decimal_text_denotes_its_number(v / 10);
        assert(s.drop_last() =~= text::decimal(v / 10));
        assert(s.last() as int == 48 + v % 10);
        assert(s[0] == text::decimal(v / 10)[0]);
        if text::decimal(v / 10).len() == 1 {
            assert(text::decimal(v / 10)[0] != '0') by {
                if v / 10 < 10 {
                    assert(text::decimal(v / 10)[0] as int == 48 + v / 10);
                } else {
                    decimal_text_denotes_its_number(v / 10 / 10);
                }
            }
        }
        assert forall|i: int| 0 <= i < s.len() implies '0' as int <= #[trigger] s[i] as int
            <= '9' as int by {
            if i < s.len() - 1 {
                assert(s[i] == text::decimal(v / 10)[i]);
            }
        }
    }
}

} // verus!
