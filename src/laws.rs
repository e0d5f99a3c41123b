//! Properties that tie the operations together, proved over their
//! specifications.

use vstd::prelude::*;
use crate::task::{
    due_key, due_text, encode, join, key_of, parse_line, priority_key, priority_text, read_field,
    read_fields, status_of, tag_list, tags_key, tags_text, value_of, Fields, TaskView,
};
use crate::text::{
    decimal, decimal_u8, free_of, is_digit, is_space, lemma_decimal_u8, lemma_decimal_shape,
    lemma_split_concat, lemma_split_len, lemma_split_prefix, lemma_split_single,
    lemma_split_suffix, lemma_trim_fixed, lemma_trim_space_back, lemma_trim_space_front, split,
    trim, trim_end, trim_start,
};
use crate::storage::{
    append_outcome, create_outcome, created, first_with, holds_id, lemma_first_with,
    lemma_unlines_lines, lines, max_id, next_id, unlines, update_outcome, without_id,
};
use crate::validate::{
    before, check_rules, decode, is_calendar_date, priority_ok, rfc3339_instant, title_ok,
    validation, Instant, TaskError,
};

verus! {

/// A tag that reads back as itself from a line: no `;` or `,`, and no space at
/// either end.
pub open spec fn tag_ok(g: Seq<char>) -> bool {
    free_of(g, ';') && free_of(g, ',') && trim(g) == g
}

/// A task that reads back as itself from its line: a valid title, a due date
/// without `;` and without a space at either end, and tags as `tag_ok` says.
pub open spec fn encodable(t: TaskView) -> bool {
    &&& title_ok(t.title)
    &&& match t.due_date {
        Some(d) => free_of(d, ';') && trim(d) == d,
        None => true,
    }
    &&& forall|i: int| 0 <= i < t.tags.len() ==> #[trigger] tag_ok(t.tags[i])
}

proof fn lemma_free_concat(a: Seq<char>, b: Seq<char>, c: char)
    requires
        free_of(a, c),
        free_of(b, c),
    ensures
        free_of(a + b, c),
{
    assert forall|i: int| 0 <= i < (a + b).len() implies (a + b)[i] != c by {
        if i < a.len() {
            assert((a + b)[i] == a[i]);
        } else {
            assert((a + b)[i] == b[i - a.len()]);
        }
    }
}

proof fn lemma_not_contains(s: Seq<char>, c: char)
    requires
        !s.contains(c),
    ensures
        free_of(s, c),
{
    assert forall|i: int| 0 <= i < s.len() implies s[i] != c by {
        if s[i] == c {
            assert(s.contains(c));
        }
    }
}

/// The digits of a number hold none of the line's delimiters.
proof fn lemma_decimal_free(n: nat, c: char)
    requires
        !is_digit(c),
    ensures
        free_of(decimal(n), c),
        decimal(n).len() >= 1,
        !is_space(decimal(n)[0]),
        !is_space(decimal(n).last()),
{
    lemma_decimal_shape(n);
    let d = decimal(n);
    assert forall|i: int| 0 <= i < d.len() implies d[i] != c by {
        assert(is_digit(d[i]));
    }
    assert(is_digit(d[0]));
    assert(is_digit(d[d.len() - 1]));
}

/// Splitting `w` and then a `key: value` field added after it: the value's
/// segment takes the place of the last piece, and a new last piece follows.
proof fn lemma_split_field(w: Seq<char>, kv: Seq<char>)
    requires
        free_of(kv, ';'),
    ensures
        split(w + kv + seq![';', ' '], ';') == split(w, ';').update(
            split(w, ';').len() - 1,
            split(w, ';').last() + kv,
        ).push(seq![' ']),
{
    lemma_split_concat(w + kv, seq![' '], ';');
    lemma_split_suffix(w, kv, ';');
    lemma_split_single(seq![' '], ';');
    assert(w + kv + seq![';', ' '] =~= (w + kv) + seq![';'] + seq![' ']);
}

/// The key and the value of a segment ` key: value`.
proof fn lemma_key_value(key: Seq<char>, v: Seq<char>)
    requires
        free_of(key, ':'),
        key.len() > 0,
        !is_space(key[0]),
        !is_space(key.last()),
    ensures
        key_of(seq![' '] + key + seq![':', ' '] + v) == key,
        value_of(seq![' '] + key + seq![':', ' '] + v) == trim(v),
{
    let seg = seq![' '] + key + seq![':', ' '] + v;
    let k = seq![' '] + key;
    assert(seg =~= k + seq![':'] + (seq![' '] + v));
    lemma_split_concat(k, seq![' '] + v, ':');
    assert(free_of(k, ':')) by {
        assert forall|i: int| 0 <= i < k.len() implies k[i] != ':' by {
            if i > 0 {
                assert(k[i] == key[i - 1]);
            }
        }
    }
    lemma_split_single(k, ':');
    lemma_split_len(seq![' '] + v, ':');
    lemma_trim_space_front(' ', key);
    lemma_trim_fixed(key);
    assert(seg.skip(k.len() as int + 1) =~= seq![' '] + v);
    lemma_trim_space_front(' ', v);
}

proof fn lemma_key_shapes()
    ensures
        free_of(due_key(), ':'),
        free_of(priority_key(), ':'),
        free_of(tags_key(), ':'),
        free_of(due_key(), ';'),
        free_of(priority_key(), ';'),
        free_of(tags_key(), ';'),
{
}


proof fn lemma_tag_list_trim_start(x: Seq<char>)
    ensures
        tag_list(trim_start(x)) == tag_list(x),
    decreases x.len(),
{
    if x.len() > 0 && is_space(x[0]) {
        let r = x.drop_first();
        lemma_tag_list_trim_start(r);
        assert(x =~= seq![x[0]] + r);
        lemma_split_prefix(seq![x[0]], r, ',');
        lemma_split_len(r, ',');
        lemma_trim_space_front(x[0], split(r, ',')[0]);
        assert(tag_list(x) =~= tag_list(r));
    }
}

proof fn lemma_tag_list_trim_end(x: Seq<char>)
    ensures
        tag_list(trim_end(x)) == tag_list(x),
    decreases x.len(),
{
    if x.len() > 0 && is_space(x.last()) {
        let y = x.drop_last();
        lemma_tag_list_trim_end(y);
        lemma_split_len(y, ',');
        lemma_trim_space_back(split(y, ',').last(), x.last());
        assert(tag_list(x) =~= tag_list(y));
    }
}

/// Trimming a `tags` value does not change the tags it lists.
proof fn lemma_tag_list_trim(x: Seq<char>)
    ensures
        tag_list(trim(x)) == tag_list(x),
{
    lemma_tag_list_trim_start(x);
    lemma_tag_list_trim_end(trim_start(x));
}

/// Joined tags list the same tags again.
proof fn lemma_tag_list_join(ts: Seq<Seq<char>>)
    requires
        ts.len() >= 1,
        forall|i: int| 0 <= i < ts.len() ==> #[trigger] tag_ok(ts[i]),
    ensures
        tag_list(join(ts)) == ts,
        free_of(join(ts), ';'),
    decreases ts.len(),
{
    if ts.len() == 1 {
        assert(tag_ok(ts[0]));
        lemma_split_single(ts[0], ',');
        assert(tag_list(join(ts)) =~= ts);
    } else {
        let init = ts.drop_last();
        let l = ts.last();
        assert(tag_ok(ts[ts.len() - 1]));
        assert forall|i: int| 0 <= i < init.len() implies #[trigger] tag_ok(init[i]) by {
            assert(tag_ok(ts[i]));
        }
        lemma_tag_list_join(init);
        let sl = seq![' '] + l;
        assert(join(ts) =~= join(init) + seq![','] + sl);
        lemma_split_concat(join(init), sl, ',');
        lemma_free_concat(seq![' '], l, ',');
        lemma_split_single(sl, ',');
        lemma_trim_space_front(' ', l);
        let a = split(join(init), ',');
        assert(split(join(ts), ',') == a + seq![sl]);
        assert(tag_list(join(init)) == init);
        assert(a.len() == init.len());
        assert forall|i: int| 0 <= i < ts.len() implies #[trigger] tag_list(join(ts))[i] == ts[i] by {
            if i < a.len() {
                assert((a + seq![sl])[i] == a[i]);
                assert(tag_list(join(init))[i] == trim(a[i]));
            } else {
                assert((a + seq![sl])[i] == sl);
            }
        }
        assert(tag_list(join(ts)) =~= ts);
        lemma_free_concat(seq![',', ' '], l, ';');
        lemma_free_concat(join(init), seq![',', ' '] + l, ';');
        assert(join(ts) =~= join(init) + (seq![',', ' '] + l));
    }
}

/// The segment that a `key: value` field becomes once the line is split at `;`.
pub open spec fn field_seg(key: Seq<char>, v: Seq<char>) -> Seq<char> {
    seq![' '] + key + seq![':', ' '] + v
}

/// One field more: its segment joins the others and is read after them.
proof fn lemma_field_step(w: Seq<char>, segs: Seq<Seq<char>>, key: Seq<char>, v: Seq<char>)
    requires
        split(w, ';') == segs.push(seq![' ']),
        free_of(key, ';'),
        free_of(v, ';'),
        free_of(key, ':'),
        key.len() > 0,
        !is_space(key[0]),
        !is_space(key.last()),
    ensures
        split(w + crate::task::field_text(key, v), ';') == segs.push(field_seg(key, v)).push(
            seq![' '],
        ),
        read_fields(segs.push(field_seg(key, v))) == match read_fields(segs) {
            Ok(f) => read_field(f, field_seg(key, v)),
            Err(e) => Err(e),
        },
        key_of(field_seg(key, v)) == key,
        value_of(field_seg(key, v)) == trim(v),
{
    let kv = key + seq![':', ' '] + v;
    lemma_free_concat(key, seq![':', ' '], ';');
    lemma_free_concat(key + seq![':', ' '], v, ';');
    lemma_split_field(w, kv);
    assert(w + crate::task::field_text(key, v) =~= w + kv + seq![';', ' ']);
    assert(seq![' '] + kv =~= field_seg(key, v));
    assert(segs.push(seq![' ']).update(segs.len() as int, seq![' '] + kv) =~= segs.push(
        field_seg(key, v),
    ));
    assert(segs.push(field_seg(key, v)).drop_last() =~= segs);
    lemma_key_value(key, v);
    assert(field_seg(key, v) =~= seq![' '] + key + seq![':', ' '] + v);
}


/// The part of a line after its title reads back as the task's fields.
proof fn lemma_fields_read_back(t: TaskView)
    requires
        encodable(t),
    ensures
        read_fields(split(seq![' '] + due_text(t) + priority_text(t) + tags_text(t), ';'))
            == Ok::<Fields, crate::task::DecodeError>(
            Fields { due_date: t.due_date, priority: t.priority, tags: t.tags },
        ),
{
    let w0 = seq![' '];
    lemma_split_single(w0, ';');
    let s0 = Seq::<Seq<char>>::empty();
    assert(split(w0, ';') =~= s0.push(w0));
    lemma_key_shapes();
    let w1 = w0 + due_text(t);
    let s1 = match t.due_date {
        Some(d) => s0.push(field_seg(due_key(), d)),
        None => s0,
    };
    match t.due_date {
        Some(d) => {
            lemma_field_step(w0, s0, due_key(), d);
            assert(s0.push(field_seg(due_key(), d)).drop_last() =~= s0);
        },
        None => {
            assert(w1 =~= w0);
        },
    }
    assert(split(w1, ';') == s1.push(w0));
    assert(read_fields(s1) == Ok::<Fields, crate::task::DecodeError>(
        Fields { due_date: t.due_date, priority: None, tags: Seq::empty() },
    ));
    let w2 = w1 + priority_text(t);
    let s2 = match t.priority {
        Some(p) => s1.push(field_seg(priority_key(), decimal(p as nat))),
        None => s1,
    };
    match t.priority {
        Some(p) => {
            lemma_decimal_free(p as nat, ';');
            lemma_field_step(w1, s1, priority_key(), decimal(p as nat));
            lemma_trim_fixed(decimal(p as nat));
            lemma_decimal_u8(p);
        },
        None => {
            assert(w2 =~= w1);
        },
    }
    assert(split(w2, ';') == s2.push(w0));
    assert(read_fields(s2) == Ok::<Fields, crate::task::DecodeError>(
        Fields { due_date: t.due_date, priority: t.priority, tags: Seq::empty() },
    ));
    let w3 = w2 + tags_text(t);
    let s3 = if t.tags.len() > 0 {
        s2.push(field_seg(tags_key(), join(t.tags)))
    } else {
        s2
    };
    if t.tags.len() > 0 {
        lemma_tag_list_join(t.tags);
        lemma_field_step(w2, s2, tags_key(), join(t.tags));
        lemma_tag_list_trim(join(t.tags));
    } else {
        assert(w3 =~= w2);
        assert(t.tags =~= Seq::<Seq<char>>::empty());
    }
    assert(split(w3, ';') == s3.push(w0));
    let f3 = Fields { due_date: t.due_date, priority: t.priority, tags: t.tags };
    assert(read_fields(s3) == Ok::<Fields, crate::task::DecodeError>(f3));
    lemma_split_single(w0, ':');
    assert(w0.drop_first() =~= Seq::<char>::empty());
    assert(is_space(w0[0]));
    assert(trim_start(Seq::<char>::empty()) == Seq::<char>::empty());
    assert(trim_start(w0) == trim_start(w0.drop_first()));
    assert(trim_start(w0) =~= Seq::<char>::empty());
    assert(key_of(w0) =~= Seq::<char>::empty());
    assert(s3.push(w0).drop_last() =~= s3);
    assert(read_field(f3, w0) == Ok::<Fields, crate::task::DecodeError>(f3));
    assert(w3 =~= seq![' '] + due_text(t) + priority_text(t) + tags_text(t));
}

proof fn lemma_encode_id(t: TaskView)
    ensures
        decimal_u8(split(encode(t), '.')[0]) == Some(t.id),
{
    let d = decimal(t.id as nat);
    let m = t.status.marker_spec();
    let r = due_text(t) + priority_text(t) + tags_text(t);
    lemma_decimal_free(t.id as nat, '.');
    let x = seq![' ', '['] + seq![m, ']', ' ', '"'] + t.title + seq!['"', ';', ' '] + r;
    assert(encode(t) =~= d + seq!['.'] + x);
    lemma_split_concat(d, x, '.');
    lemma_split_single(d, '.');
    lemma_decimal_u8(t.id);
}

/// The status marker of a line reads back as the task's status, whatever the
/// rest of the task holds.
pub proof fn lemma_encode_status(t: TaskView)
    ensures
        status_of(encode(t)) == Some(t.status),
{
    let d = decimal(t.id as nat);
    let m = t.status.marker_spec();
    let r = due_text(t) + priority_text(t) + tags_text(t);
    lemma_decimal_free(t.id as nat, '[');
    let a = d + seq!['.', ' '];
    lemma_free_concat(d, seq!['.', ' '], '[');
    let z = seq![' ', '"'] + t.title + seq!['"', ';', ' '] + r;
    let y = seq![m, ']'] + z;
    assert(encode(t) =~= a + seq!['['] + y);
    lemma_split_concat(a, y, '[');
    lemma_split_single(a, '[');
    lemma_split_prefix(seq![m, ']'], z, '[');
    lemma_split_len(z, '[');
}

proof fn lemma_encode_title(t: TaskView)
    requires
        free_of(t.title, '"'),
    ensures
        split(encode(t), '"').len() >= 3,
        split(encode(t), '"')[1] == t.title,
{
    let d = decimal(t.id as nat);
    let m = t.status.marker_spec();
    let r = due_text(t) + priority_text(t) + tags_text(t);
    lemma_decimal_free(t.id as nat, '"');
    let h1 = d + seq!['.', ' ', '[', m, ']', ' '];
    lemma_free_concat(d, seq!['.', ' ', '[', m, ']', ' '], '"');
    let rest1 = seq![';', ' '] + r;
    let tw = t.title + seq!['"'] + rest1;
    assert(encode(t) =~= h1 + seq!['"'] + tw);
    lemma_split_concat(h1, tw, '"');
    lemma_split_single(h1, '"');
    lemma_split_concat(t.title, rest1, '"');
    lemma_split_single(t.title, '"');
    lemma_split_len(rest1, '"');
}

proof fn lemma_encode_fields(t: TaskView)
    requires
        encodable(t),
    ensures
        read_fields(split(encode(t), ';').drop_first()) == Ok::<Fields, crate::task::DecodeError>(
            Fields { due_date: t.due_date, priority: t.priority, tags: t.tags },
        ),
{
    let d = decimal(t.id as nat);
    let m = t.status.marker_spec();
    let r = due_text(t) + priority_text(t) + tags_text(t);
    lemma_not_contains(t.title, ';');
    lemma_decimal_free(t.id as nat, ';');
    let h2 = d + seq!['.', ' ', '[', m, ']', ' ', '"'] + t.title + seq!['"'];
    lemma_free_concat(d, seq!['.', ' ', '[', m, ']', ' ', '"'], ';');
    lemma_free_concat(d + seq!['.', ' ', '[', m, ']', ' ', '"'], t.title, ';');
    lemma_free_concat(d + seq!['.', ' ', '[', m, ']', ' ', '"'] + t.title, seq!['"'], ';');
    assert(encode(t) =~= h2 + seq![';'] + (seq![' '] + r));
    lemma_split_concat(h2, seq![' '] + r, ';');
    lemma_split_single(h2, ';');
    lemma_fields_read_back(t);
    assert(split(encode(t), ';').drop_first() =~= split(seq![' '] + r, ';'));
    assert(seq![' '] + r =~= seq![' '] + due_text(t) + priority_text(t) + tags_text(t));
}

/// A task that `encodable` admits reads back from its line as itself.
pub proof fn lemma_parse_encode(t: TaskView)
    requires
        encodable(t),
    ensures
        parse_line(encode(t)) == Ok::<TaskView, crate::task::DecodeError>(t),
{
    lemma_not_contains(t.title, '"');
    lemma_encode_id(t);
    lemma_encode_status(t);
    lemma_encode_title(t);
    lemma_encode_fields(t);
}

/// Round trip: a valid task whose due date and tags `encodable` admits decodes
/// from its own line as itself.
pub proof fn lemma_round_trip(t: TaskView, now: Instant)
    requires
        encodable(t),
        validation(t, now) is Ok,
    ensures
        decode(encode(t), now) == Ok::<TaskView, crate::validate::TaskError>(t),
{
    lemma_parse_encode(t);
}


proof fn lemma_without_absent(ls: Seq<Seq<char>>, id: u8)
    requires
        forall|j: int| 0 <= j < ls.len() ==> !holds_id(#[trigger] ls[j], id),
    ensures
        without_id(ls, id) == ls,
    decreases ls.len(),
{
    if ls.len() > 0 {
        let t = ls.drop_last();
        assert forall|j: int| 0 <= j < t.len() implies !holds_id(#[trigger] t[j], id) by {
            assert(t[j] == ls[j]);
        }
        lemma_without_absent(t, id);
        assert(!holds_id(ls[ls.len() - 1], id));
        assert(t.push(ls.last()) =~= ls);
    }
}

/// Deleting an id that no line holds gives the contents back unchanged.
pub proof fn lemma_delete_absent_id(s: Seq<char>, id: u8)
    requires
        forall|j: int| 0 <= j < lines(s).len() ==> !holds_id(#[trigger] lines(s)[j], id),
    ensures
        unlines(without_id(lines(s), id)) == s,
{
    lemma_without_absent(lines(s), id);
    lemma_unlines_lines(s);
}

/// Deleting keeps every line that does not read as a task.
pub proof fn lemma_delete_keeps_unreadable(ls: Seq<Seq<char>>, id: u8, j: int)
    requires
        0 <= j < ls.len(),
        parse_line(ls[j]) is Err,
    ensures
        without_id(ls, id).contains(ls[j]),
    decreases ls.len(),
{
    let t = ls.drop_last();
    if j < t.len() {
        assert(t[j] == ls[j]);
        lemma_delete_keeps_unreadable(t, id, j);
        let w = without_id(t, id);
        let i = choose|i: int| 0 <= i < w.len() && w[i] == ls[j];
        if !holds_id(ls.last(), id) {
            assert(w.push(ls.last())[i] == ls[j]);
        }
    } else {
        assert(without_id(ls, id) == without_id(t, id).push(ls.last()));
        assert(without_id(ls, id)[without_id(t, id).len() as int] == ls[j]);
    }
}

/// Updating replaces one line, which holds a task; lines that do not read as a
/// task are never the one replaced.
pub proof fn lemma_update_keeps_unreadable(s: Seq<char>, id: u8, t: TaskView, now: Instant)
    requires
        update_outcome(s, id, t, now) is Ok,
    ensures
        ({
            let ls = lines(s);
            let k = first_with(ls, id, now);
            &&& 0 <= k < ls.len()
            &&& update_outcome(s, id, t, now) == Ok::<Seq<char>, TaskError>(
                unlines(ls.update(k, encode(t))),
            )
            &&& forall|j: int| 0 <= j < ls.len() && parse_line(#[trigger] ls[j]) is Err ==> j != k
        }),
{
    lemma_first_with(lines(s), id, now);
}

proof fn lemma_max_id_bounds(ts: Seq<TaskView>)
    ensures
        forall|i: int| 0 <= i < ts.len() ==> (#[trigger] ts[i]).id <= max_id(ts),
    decreases ts.len(),
{
    if ts.len() > 0 {
        let init = ts.drop_last();
        lemma_max_id_bounds(init);
        assert forall|i: int| 0 <= i < ts.len() implies (#[trigger] ts[i]).id <= max_id(ts) by {
            if i < init.len() {
                assert(ts[i] == init[i]);
            }
        }
    }
}

/// The next id is larger than the id of every task there is, so no id in use
/// is given again; where there are no tasks it is 1.
pub proof fn lemma_next_id_fresh(ts: Seq<TaskView>)
    requires
        max_id(ts) < 255,
    ensures
        forall|i: int| 0 <= i < ts.len() ==> (#[trigger] ts[i]).id < next_id(ts),
        ts.len() == 0 ==> next_id(ts) == 1,
{
    lemma_max_id_bounds(ts);
}

/// A task created in a file without tasks gets the id 1.
pub proof fn lemma_first_task_id(
    contents: Seq<char>,
    title: Seq<char>,
    due_date: Option<Seq<char>>,
    priority: Option<u8>,
    tags: Seq<Seq<char>>,
    now: Instant,
)
    requires
        crate::storage::file_tasks(contents, now).len() == 0,
    ensures
        created(contents, title, due_date, priority, tags, now).id == 1,
{
}

/// A priority outside 1 to 9 fails validation, so such a task is neither added
/// nor written in place of another; the file stays as it is.
pub proof fn lemma_priority_gate(t: TaskView, now: Instant, s: Seq<char>, id: u8)
    requires
        !priority_ok(t.priority),
    ensures
        validation(t, now) is Err,
        append_outcome(t, now) is Err,
        update_outcome(s, id, t, now) is Err,
{
}

/// Creating a task with a priority outside 1 to 9 fails with a validation error.
pub proof fn lemma_create_priority_gate(
    contents: Seq<char>,
    title: Seq<char>,
    due_date: Option<Seq<char>>,
    p: u8,
    tags: Seq<Seq<char>>,
    now: Instant,
)
    requires
        p < 1 || p > 9,
    ensures
        create_outcome(contents, title, due_date, Some(p), tags, now) is Err,
{
}

/// A due date that chrono reads only as a calendar date passes the due-date
/// rule at any time: validation gives the same outcome whenever it is made.
pub proof fn lemma_calendar_date_any_time(t: TaskView, now1: Instant, now2: Instant)
    requires
        t.due_date is Some,
        rfc3339_instant(t.due_date->0) is None,
        is_calendar_date(t.due_date->0),
    ensures
        validation(t, now1) == validation(t, now2),
        validation(t, now1) == check_rules(t, None, now1),
{
}

/// A due timestamp earlier than the moment of validation fails it.
pub proof fn lemma_past_timestamp_fails(t: TaskView, now: Instant)
    requires
        t.due_date is Some,
        rfc3339_instant(t.due_date->0) matches Some(p) && before(
            Instant { secs: p.0, nanos: p.1 },
            now,
        ),
    ensures
        validation(t, now) is Err,
{
}

/// A due timestamp not earlier than the moment of validation passes the
/// due-date rule: the other rules decide.
pub proof fn lemma_future_timestamp_passes(t: TaskView, now: Instant)
    requires
        t.due_date is Some,
        rfc3339_instant(t.due_date->0) matches Some(p) && !before(
            Instant { secs: p.0, nanos: p.1 },
            now,
        ),
    ensures
        validation(t, now) == check_rules(t, None, now),
{
}


/// No piece of a split holds the separator.
proof fn lemma_split_pieces_free(s: Seq<char>, sep: char)
    ensures
        forall|i: int| 0 <= i < split(s, sep).len() ==> free_of(#[trigger] split(s, sep)[i], sep),
    decreases s.len(),
{
    if s.len() > 0 {
        let t = s.drop_last();
        lemma_split_pieces_free(t, sep);
        lemma_split_len(t, sep);
        let p = split(t, sep);
        if s.last() != sep {
            let l = p.last().push(s.last());
            assert(free_of(l, sep)) by {
                assert(free_of(p[p.len() - 1], sep));
                assert forall|k: int| 0 <= k < l.len() implies l[k] != sep by {
                    if k < p.last().len() {
                        assert(l[k] == p.last()[k]);
                    }
                }
            }
        }
        assert forall|i: int| 0 <= i < split(s, sep).len() implies free_of(
            #[trigger] split(s, sep)[i],
            sep,
        ) by {
            if i < p.len() && !(s.last() != sep && i == p.len() - 1) {
                assert(split(s, sep)[i] == p[i]);
            }
        }
    }
}

/// Lines without line breaks, joined and split again, come back as they were.
proof fn lemma_lines_unlines(ls: Seq<Seq<char>>)
    requires
        ls.len() >= 1,
        forall|i: int| 0 <= i < ls.len() ==> free_of(#[trigger] ls[i], '\n'),
    ensures
        lines(unlines(ls)) == ls,
    decreases ls.len(),
{
    if ls.len() == 1 {
        lemma_split_single(ls[0], '\n');
        assert(lines(unlines(ls)) =~= ls);
    } else {
        let init = ls.drop_last();
        assert forall|i: int| 0 <= i < init.len() implies free_of(#[trigger] init[i], '\n') by {
            assert(init[i] == ls[i]);
        }
        lemma_lines_unlines(init);
        assert(free_of(ls[ls.len() - 1], '\n'));
        lemma_split_concat(unlines(init), ls.last(), '\n');
        lemma_split_single(ls.last(), '\n');
        assert(lines(unlines(ls)) =~= ls);
    }
}

proof fn lemma_without_id_free(ls: Seq<Seq<char>>, id: u8)
    requires
        forall|i: int| 0 <= i < ls.len() ==> free_of(#[trigger] ls[i], '\n'),
    ensures
        forall|i: int|
            0 <= i < without_id(ls, id).len() ==> free_of(#[trigger] without_id(ls, id)[i], '\n'),
    decreases ls.len(),
{
    if ls.len() > 0 {
        let init = ls.drop_last();
        assert forall|i: int| 0 <= i < init.len() implies free_of(#[trigger] init[i], '\n') by {
            assert(init[i] == ls[i]);
        }
        lemma_without_id_free(init, id);
        assert(free_of(ls[ls.len() - 1], '\n'));
        let w = without_id(init, id);
        assert forall|i: int| 0 <= i < without_id(ls, id).len() implies free_of(
            #[trigger] without_id(ls, id)[i],
            '\n',
        ) by {
            if i < w.len() {
                assert(without_id(ls, id)[i] == w[i]);
            }
        }
    }
}

/// The tasks, in order, but for those with this id.
pub open spec fn tasks_without(ts: Seq<TaskView>, id: u8) -> Seq<TaskView>
    decreases ts.len(),
{
    if ts.len() == 0 {
        ts
    } else {
        let before = tasks_without(ts.drop_last(), id);
        if ts.last().id == id {
            before
        } else {
            before.push(ts.last())
        }
    }
}

proof fn lemma_decoded_without(ls: Seq<Seq<char>>, id: u8, now: Instant)
    ensures
        crate::storage::decoded_tasks(without_id(ls, id), now) == tasks_without(
            crate::storage::decoded_tasks(ls, now),
            id,
        ),
    decreases ls.len(),
{
    if ls.len() > 0 {
        let init = ls.drop_last();
        lemma_decoded_without(init, id, now);
        let w = without_id(init, id);
        let d = crate::storage::decoded_tasks(init, now);
        if !holds_id(ls.last(), id) {
            assert(w.push(ls.last()).drop_last() =~= w);
        }
        if let Ok(t) = decode(ls.last(), now) {
            assert(d.push(t).drop_last() =~= d);
        }
    }
}

proof fn lemma_max_without_le(ts: Seq<TaskView>, id: u8)
    ensures
        max_id(tasks_without(ts, id)) <= max_id(ts),
    decreases ts.len(),
{
    if ts.len() > 0 {
        let init = ts.drop_last();
        lemma_max_without_le(init, id);
        let w = tasks_without(init, id);
        if ts.last().id != id {
            assert(w.push(ts.last()).drop_last() =~= w);
        }
    }
}

proof fn lemma_max_without(ts: Seq<TaskView>, id: u8)
    requires
        id != max_id(ts),
    ensures
        max_id(tasks_without(ts, id)) == max_id(ts),
    decreases ts.len(),
{
    if ts.len() > 0 {
        let init = ts.drop_last();
        let w = tasks_without(init, id);
        lemma_max_without_le(init, id);
        if max_id(init) != id {
            lemma_max_without(init, id);
        }
        if ts.last().id != id {
            assert(w.push(ts.last()).drop_last() =~= w);
        }
    }
}

/// The tasks left after deleting an id are the tasks there were, but for those
/// with that id.
pub proof fn lemma_delete_tasks(s: Seq<char>, id: u8, now: Instant)
    ensures
        crate::storage::file_tasks(unlines(without_id(lines(s), id)), now) == tasks_without(
            crate::storage::file_tasks(s, now),
            id,
        ),
{
    let w = without_id(lines(s), id);
    lemma_split_pieces_free(s, '\n');
    lemma_without_id_free(lines(s), id);
    lemma_decoded_without(lines(s), id, now);
    if w.len() >= 1 {
        lemma_lines_unlines(w);
    } else {
        let e = Seq::<Seq<char>>::empty();
        assert(w =~= e);
        assert(unlines(w) =~= Seq::<char>::empty());
        assert(lines(Seq::<char>::empty()) =~= seq![Seq::<char>::empty()]);
        assert(split(Seq::<char>::empty(), '.')[0] =~= Seq::<char>::empty());
        assert(decode(Seq::<char>::empty(), now) is Err);
        assert(seq![Seq::<char>::empty()].drop_last() =~= e);
    }
}

/// Deleting a task other than the one with the largest id leaves the id that
/// the next created task gets unchanged, so ids freed below the largest are
/// not given again.
pub proof fn lemma_delete_keeps_next_id(s: Seq<char>, id: u8, now: Instant)
    requires
        id != max_id(crate::storage::file_tasks(s, now)),
    ensures
        next_id(crate::storage::file_tasks(unlines(without_id(lines(s), id)), now)) == next_id(
            crate::storage::file_tasks(s, now),
        ),
{
    lemma_delete_tasks(s, id, now);
    lemma_max_without(crate::storage::file_tasks(s, now), id);
}

} // verus!
