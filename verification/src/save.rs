//! The save file, which records between runs the symlinks that were made.
//!
//! It holds elements `IDENTIFIER=...` ended by `;`; the one element that is
//! read, `symlinks=[...]`, lists `"LINK=TARGET"` items separated by commas.
use vstd::prelude::*;
use crate::text::{
    byte_offset, char_index_at, char_index_of_byte, find_char, first_position, from_chars, is_char_boundary_at,
    split_by, split_on, to_chars, trim_end_char, trim_end_matches_char, texts, utf8_length,
};
use crate::command::owned;

verus! {

/// A character that UTF-8 writes in one byte.
pub open spec fn is_ascii_char(c: char) -> bool {
    (c as u32) < 128
}

/// The elements of a save file: the pieces between `;`, each without its
/// trailing line ends, the empty ones left out.
pub open spec fn save_elements_of(content: Seq<char>) -> Seq<Seq<char>> {
    split_by(content, ';').map_values(|p: Seq<char>| trim_end_char(p, '\n')).filter(
        |e: Seq<char>| e.len() > 0,
    )
}

/// The length in bytes of the UTF-8 form of `s`.
pub open spec fn byte_length(s: Seq<char>) -> int {
    byte_offset(s, s.len() as int) as int
}

/// The list part of a `symlinks=[...]` element whose `=` is at byte position
/// `bound`: from the byte after `=[` to the last byte, left out.
pub open spec fn save_remainder(bound: int, value: Seq<char>) -> Seq<char> {
    value.subrange(char_index_at(value, bound + 2), char_index_at(value, byte_length(value) - 1))
}

/// The items of the list part: the pieces between commas, empty ones left out.
pub open spec fn save_pieces(bound: int, value: Seq<char>) -> Seq<Seq<char>> {
    split_by(save_remainder(bound, value), ',').filter(|p: Seq<char>| p.len() > 0)
}

/// A piece without its first and last character (its quotes).
pub open spec fn unquote(p: Seq<char>) -> Seq<char> {
    p.subrange(1, p.len() - 1)
}

/// `read_save` can cut `value` where it cuts it: the byte positions after
/// `=[` and before the last byte start characters, the first comes no later
/// than the second, and each item has a first and a last character of one
/// byte each.
pub open spec fn read_save_ok(bound: int, value: Seq<char>) -> bool {
    &&& 0 <= bound
    &&& bound + 2 <= byte_length(value) - 1
    &&& is_char_boundary_at(value, bound + 2)
    &&& is_char_boundary_at(value, byte_length(value) - 1)
    &&& forall|i: int|
        0 <= i < save_pieces(bound, value).len() ==> {
            let p = #[trigger] save_pieces(bound, value)[i];
            p.len() >= 2 && is_ascii_char(p[0]) && is_ascii_char(p.last())
        }
}

/// The saved symlinks of a `symlinks=[...]` element: each item without its quotes.
pub open spec fn read_save_of(bound: int, value: Seq<char>) -> Seq<Seq<char>> {
    save_pieces(bound, value).map_values(|p: Seq<char>| unquote(p))
}

/// The identifier of an element: what comes before its first `=`.
pub open spec fn identifier_of(e: Seq<char>) -> Seq<char> {
    e.take(first_position(e, '=').unwrap())
}

/// The byte position of the first `=` of an element.
pub open spec fn identifier_bound(e: Seq<char>) -> int {
    byte_offset(e, first_position(e, '=').unwrap()) as int
}

/// An element that the loader can read: it has an `=`, and where it is the
/// `symlinks` element, its list can be cut.
pub open spec fn element_ok(e: Seq<char>) -> bool {
    &&& first_position(e, '=') is Some
    &&& identifier_of(e) == "symlinks"@ ==> read_save_ok(identifier_bound(e), e)
}

/// A save file that the loader can read.
pub open spec fn save_ok(content: Seq<char>) -> bool {
    forall|i: int| 0 <= i < save_elements_of(content).len() ==> element_ok(
        #[trigger] save_elements_of(content)[i],
    )
}

/// What a run reads of the elements: the symlinks of the last `symlinks`
/// element (none where there is none), and the identifiers not recognised.
pub open spec fn loaded(es: Seq<Seq<char>>) -> (Seq<Seq<char>>, Seq<Seq<char>>)
    decreases es.len(),
{
    if es.len() == 0 {
        (Seq::empty(), Seq::empty())
    } else {
        let prev = loaded(es.drop_last());
        let e = es.last();
        if identifier_of(e) == "symlinks"@ {
            (read_save_of(identifier_bound(e), e), prev.1)
        } else {
            (prev.0, prev.1.push(identifier_of(e)))
        }
    }
}

/// A saved symlink item: `LINK=TARGET`.
pub open spec fn link_item(link: Seq<char>, target: Seq<char>) -> Seq<char> {
    link + "="@ + target
}

/// The items of the string-valued pairs (link, target) of the symlinks
/// table, in order.
pub open spec fn link_items(pairs: Seq<(String, Option<String>)>) -> Seq<Seq<char>>
    decreases pairs.len(),
{
    if pairs.len() == 0 {
        Seq::empty()
    } else {
        match pairs.last().1 {
            Some(t) => link_items(pairs.drop_last()).push(link_item(pairs.last().0@, t@)),
            None => link_items(pairs.drop_last()),
        }
    }
}

/// An item in double quotes.
pub open spec fn quoted(item: Seq<char>) -> Seq<char> {
    "\""@ + item + "\""@
}

/// Items joined by commas.
pub open spec fn join_commas(items: Seq<Seq<char>>) -> Seq<char>
    decreases items.len(),
{
    if items.len() == 0 {
        Seq::empty()
    } else if items.len() == 1 {
        items[0]
    } else {
        join_commas(items.drop_last()) + ","@ + items.last()
    }
}

/// The save file element that records the symlinks of a table:
/// `symlinks=["LINK=TARGET",...];`.
pub open spec fn symlinks_message(pairs: Seq<(String, Option<String>)>) -> Seq<char> {
    "symlinks=["@ + join_commas(quote_all(link_items(pairs))) + "];"@
}

/// Each item in double quotes.
pub open spec fn quote_all(items: Seq<Seq<char>>) -> Seq<Seq<char>> {
    items.map_values(|i: Seq<char>| quoted(i))
}

/// Splitting at a separator splits both sides of it.
pub proof fn lemma_split_concat(a: Seq<char>, b: Seq<char>, sep: char)
    ensures
        split_by(a + seq![sep] + b, sep) == split_by(a, sep) + split_by(b, sep),
    decreases b.len(),
{
    if b.len() == 0 {
        assert(a + seq![sep] + b =~= a.push(sep));
        assert(a.push(sep).drop_last() =~= a);
        assert(split_by(b, sep) =~= seq![Seq::<char>::empty()]);
        assert(split_by(a, sep) + split_by(b, sep) =~= split_by(a, sep).push(Seq::<char>::empty()));
    } else {
        let s = a + seq![sep] + b;
        assert(s.drop_last() =~= a + seq![sep] + b.drop_last());
        assert(s.last() == b.last());
        lemma_split_concat(a, b.drop_last(), sep);
        crate::text::lemma_split_len_positive(b.drop_last(), sep);
        let pa = split_by(a, sep);
        let pb = split_by(b.drop_last(), sep);
        if b.last() == sep {
            assert((pa + pb).push(Seq::<char>::empty()) =~= pa + pb.push(Seq::<char>::empty()));
        } else {
            assert((pa + pb).update((pa + pb).len() - 1, (pa + pb).last().push(b.last()))
                =~= pa + pb.update(pb.len() - 1, pb.last().push(b.last())));
        }
    }
}

/// A piece with no separator in it is not split.
pub proof fn lemma_split_none(s: Seq<char>, sep: char)
    requires
        !s.contains(sep),
    ensures
        split_by(s, sep) == seq![s],
    decreases s.len(),
{
    if s.len() == 0 {
        assert(s =~= Seq::<char>::empty());
        assert(split_by(s, sep) =~= seq![s]);
    } else {
        assert(!s.drop_last().contains(sep)) by {
            if s.drop_last().contains(sep) {
                let i = choose|i: int| 0 <= i < s.drop_last().len() && s.drop_last()[i] == sep;
                assert(s[i] == sep);
            }
        }
        lemma_split_none(s.drop_last(), sep);
        assert(s.last() != sep) by {
            assert(s[s.len() - 1] == s.last());
        }
        assert(s.drop_last().push(s.last()) =~= s);
        assert(seq![s.drop_last()].update(0, s.drop_last().push(s.last())) =~= seq![s]);
    }
}

/// Joining items that hold no comma, then splitting at commas, gives the items back.
pub proof fn lemma_split_join(items: Seq<Seq<char>>)
    requires
        items.len() > 0,
        forall|i: int| 0 <= i < items.len() ==> !(#[trigger] items[i]).contains(','),
    ensures
        split_by(join_commas(items), ',') == items,
    decreases items.len(),
{
    if items.len() == 1 {
        lemma_split_none(items[0], ',');
        assert(seq![items[0]] =~= items);
    } else {
        let init = items.drop_last();
        assert(forall|i: int| 0 <= i < init.len() ==> init[i] == items[i]);
        lemma_split_join(init);
        proof_reveal_comma();
        lemma_split_concat(join_commas(init), items.last(), ',');
        assert(join_commas(items) == join_commas(init) + seq![','] + items.last());
        lemma_split_none(items.last(), ',');
        assert(init + seq![items.last()] =~= items);
    }
}

proof fn proof_reveal_comma()
    ensures
        ","@ == seq![','],
{
    reveal_strlit(",");
}

proof fn lemma_literals()
    ensures
        "="@ == seq!['='],
        "\""@ == seq!['"'],
        "];"@ == seq![']', ';'],
        "symlinks=["@ == seq!['s', 'y', 'm', 'l', 'i', 'n', 'k', 's', '=', '['],
        "symlinks"@ == seq!['s', 'y', 'm', 'l', 'i', 'n', 'k', 's'],
{
    reveal_strlit("=");
    reveal_strlit("\"");
    reveal_strlit("];");
    reveal_strlit("symlinks=[");
    reveal_strlit("symlinks");
}

/// A symlink path that the save file can hold: no `;` and no `,` in it.
pub open spec fn savable(p: Seq<char>) -> bool {
    !p.contains(';') && !p.contains(',')
}

/// Every string-valued pair of the table has savable paths.
pub open spec fn pairs_savable(pairs: Seq<(String, Option<String>)>) -> bool {
    forall|i: int|
        0 <= i < pairs.len() && (#[trigger] pairs[i]).1 is Some ==> savable(pairs[i].0@) && savable(
            pairs[i].1.unwrap()@,
        )
}

proof fn lemma_items_savable(pairs: Seq<(String, Option<String>)>)
    requires
        pairs_savable(pairs),
    ensures
        forall|i: int| 0 <= i < link_items(pairs).len() ==> savable(#[trigger] link_items(pairs)[i]),
    decreases pairs.len(),
{
    if pairs.len() > 0 {
        let init = pairs.drop_last();
        assert forall|i: int| 0 <= i < init.len() && (#[trigger] init[i]).1 is Some implies savable(init[i].0@) && savable(
            init[i].1.unwrap()@,
        ) by {
            assert(init[i] == pairs[i]);
        }
        lemma_items_savable(init);
        let prev = link_items(init);
        match pairs.last().1 {
            Some(t) => {
                lemma_literals();
                let l = pairs.last().0@;
                assert(pairs[pairs.len() - 1] == pairs.last());
                let item = link_item(l, t@);
                assert(item =~= l + seq!['='] + t@);
                assert(savable(item)) by {
                    if item.contains(';') || item.contains(',') {
                        let c = if item.contains(';') { ';' } else { ',' };
                        let k = choose|k: int| 0 <= k < item.len() && item[k] == c;
                        if k < l.len() {
                            assert(l[k] == c);
                        } else if k == l.len() {
                        } else {
                            assert(t@[k - l.len() - 1] == c);
                        }
                    }
                }
                assert(link_items(pairs) == prev.push(item));
                assert forall|i: int| 0 <= i < link_items(pairs).len() implies savable(#[trigger] link_items(pairs)[i]) by {
                    if i < prev.len() {
                        assert(link_items(pairs)[i] == prev[i]);
                    }
                }
            },
            None => {
                assert(link_items(pairs) == prev);
            },
        }
    }
}

/// Joined items hold a `;` only where an item does.
proof fn lemma_join_no_semicolon(items: Seq<Seq<char>>)
    requires
        forall|i: int| 0 <= i < items.len() ==> !(#[trigger] items[i]).contains(';'),
    ensures
        !join_commas(items).contains(';'),
    decreases items.len(),
{
    if items.len() == 1 {
    } else if items.len() > 1 {
        let init = items.drop_last();
        assert(forall|i: int| 0 <= i < init.len() ==> init[i] == items[i]);
        lemma_join_no_semicolon(init);
        proof_reveal_comma();
        let j = join_commas(init);
        let l = items.last();
        assert(items[items.len() - 1] == l);
        let all = j + seq![','] + l;
        assert(join_commas(items) == all);
        if all.contains(';') {
            let k = choose|k: int| 0 <= k < all.len() && all[k] == ';';
            if k < j.len() {
                assert(j[k] == ';');
            } else if k > j.len() {
                assert(l[k - j.len() - 1] == ';');
            }
        }
    }
}

/// Keeping the non-empty elements of a sequence of non-empty elements keeps them all.
proof fn lemma_filter_nonempty_all(xs: Seq<Seq<char>>)
    requires
        forall|i: int| 0 <= i < xs.len() ==> (#[trigger] xs[i]).len() > 0,
    ensures
        xs.filter(|p: Seq<char>| p.len() > 0) == xs,
    decreases xs.len(),
{
    reveal(Seq::filter);
    if xs.len() > 0 {
        let init = xs.drop_last();
        assert(forall|i: int| 0 <= i < init.len() ==> init[i] == xs[i]);
        lemma_filter_nonempty_all(init);
        assert(xs[xs.len() - 1] == xs.last());
        assert(init.push(xs.last()) =~= xs);
    }
}

/// The symlinks element without its `;`.
pub open spec fn symlinks_element(j: Seq<char>) -> Seq<char> {
    "symlinks=["@ + j + "]"@
}

proof fn lemma_message_elements(j: Seq<char>)
    requires
        !j.contains(';'),
    ensures
        save_elements_of("symlinks=["@ + j + "];"@) == seq![symlinks_element(j)],
{
    lemma_literals();
    reveal_strlit("]");
    let content = "symlinks=["@ + j + "];"@;
    let p = symlinks_element(j);
    assert(p =~= seq!['s', 'y', 'm', 'l', 'i', 'n', 'k', 's', '=', '['] + j + seq![']']);
    assert(content =~= p + seq![';'] + Seq::<char>::empty());
    lemma_split_concat(p, Seq::<char>::empty(), ';');
    assert(!p.contains(';')) by {
        if p.contains(';') {
            let k = choose|k: int| 0 <= k < p.len() && p[k] == ';';
            if 10 <= k < 10 + j.len() {
                assert(j[k - 10] == ';');
            }
        }
    }
    lemma_split_none(p, ';');
    assert(split_by(Seq::<char>::empty(), ';') =~= seq![Seq::<char>::empty()]);
    let pieces = split_by(content, ';');
    assert(pieces =~= seq![p, Seq::<char>::empty()]);
    assert(p.last() == ']');
    assert(trim_end_char(p, '\n') == p);
    assert(trim_end_char(Seq::<char>::empty(), '\n') == Seq::<char>::empty());
    let trimmed = pieces.map_values(|x: Seq<char>| trim_end_char(x, '\n'));
    assert(trimmed =~= seq![p, Seq::<char>::empty()]);
    reveal(Seq::filter);
    assert(seq![p, Seq::<char>::empty()].drop_last() =~= seq![p]);
    assert(seq![p].drop_last() =~= Seq::<Seq<char>>::empty());
    assert(save_elements_of(content) =~= seq![p]);
}

proof fn lemma_quoted_items(items: Seq<Seq<char>>)
    requires
        forall|i: int| 0 <= i < items.len() ==> savable(#[trigger] items[i]),
    ensures
        forall|i: int| 0 <= i < items.len() ==> {
            let q = #[trigger] quote_all(items)[i];
            &&& !q.contains(';')
            &&& !q.contains(',')
            &&& q.len() >= 2
            &&& is_ascii_char(q[0])
            &&& is_ascii_char(q.last())
            &&& unquote(q) == items[i]
        },
{
    lemma_literals();
    let qs = quote_all(items);
    assert forall|i: int| 0 <= i < items.len() implies {
        let q = #[trigger] qs[i];
        &&& !q.contains(';')
        &&& !q.contains(',')
        &&& q.len() >= 2
        &&& is_ascii_char(q[0])
        &&& is_ascii_char(q.last())
        &&& unquote(q) == items[i]
    } by {
        let it = items[i];
        let q = qs[i];
        assert(savable(it));
        assert(q =~= seq!['"'] + it + seq!['"']);
        if q.contains(';') || q.contains(',') {
            let c = if q.contains(';') { ';' } else { ',' };
            let k = choose|k: int| 0 <= k < q.len() && q[k] == c;
            assert(it[k - 1] == c);
        }
        assert(unquote(q) =~= it);
    }
}

proof fn lemma_symlinks_element_shape(j: Seq<char>)
    ensures
        first_position(symlinks_element(j), '=') == Some(8int),
        identifier_of(symlinks_element(j)) == "symlinks"@,
        identifier_bound(symlinks_element(j)) == 8,
        save_remainder(8, symlinks_element(j)) == j,
        10 <= byte_length(symlinks_element(j)) - 1,
        is_char_boundary_at(symlinks_element(j), 10),
        is_char_boundary_at(symlinks_element(j), byte_length(symlinks_element(j)) - 1),
{
    lemma_literals();
    reveal_strlit("]");
    let p = symlinks_element(j);
    assert(p =~= seq!['s', 'y', 'm', 'l', 'i', 'n', 'k', 's', '=', '['] + j + seq![']']);
    crate::text::lemma_first_position(p, '=', 8);
    assert(identifier_of(p) =~= "symlinks"@);
    let n = p.len() as int;
    assert(forall|i: int| 0 <= i < 10 ==> (p[i] as u32) < 0x80);
    crate::text::lemma_offset_ascii(p, 8);
    crate::text::lemma_offset_ascii(p, 10);
    crate::text::lemma_char_index_at(p, 10);
    crate::text::lemma_offset_step(p, n - 1);
    assert(p[n - 1] == ']');
    crate::text::lemma_char_index_at(p, n - 1);
    if n - 1 > 10 {
        crate::text::lemma_offset_strict(p, 10, n - 1);
    }
    assert(byte_length(p) - 1 == byte_offset(p, n - 1));
    assert(char_index_at(p, 10) == 10);
    assert(char_index_at(p, byte_length(p) - 1) == n - 1);
    assert(save_remainder(8, p) =~= j);
}

proof fn lemma_list_reads(items: Seq<Seq<char>>)
    requires
        forall|i: int| 0 <= i < items.len() ==> savable(#[trigger] items[i]),
    ensures
        split_by(join_commas(quote_all(items)), ',').filter(|p: Seq<char>| p.len() > 0) == quote_all(items),
        quote_all(items).map_values(|p: Seq<char>| unquote(p)) == items,
{
    let qs = quote_all(items);
    lemma_quoted_items(items);
    let j = join_commas(qs);
    if qs.len() == 0 {
        assert(j =~= Seq::<char>::empty());
        assert(split_by(j, ',') =~= seq![Seq::<char>::empty()]);
        reveal(Seq::filter);
        let e = seq![Seq::<char>::empty()];
        assert(e.drop_last() =~= Seq::<Seq<char>>::empty());
        assert(e.drop_last().filter(|p: Seq<char>| p.len() > 0) =~= Seq::<Seq<char>>::empty());
        assert(e.filter(|p: Seq<char>| p.len() > 0) == e.drop_last().filter(|p: Seq<char>| p.len() > 0));
        assert(split_by(j, ',').filter(|p: Seq<char>| p.len() > 0) =~= qs);
    } else {
        assert forall|i: int| 0 <= i < qs.len() implies !(#[trigger] qs[i]).contains(',') by {}
        lemma_split_join(qs);
        assert forall|i: int| 0 <= i < qs.len() implies (#[trigger] qs[i]).len() > 0 by {}
        lemma_filter_nonempty_all(qs);
    }
    assert(qs.map_values(|p: Seq<char>| unquote(p)) =~= items);
}

proof fn lemma_symlinks_element_reads(items: Seq<Seq<char>>)
    requires
        forall|i: int| 0 <= i < items.len() ==> savable(#[trigger] items[i]),
    ensures
        element_ok(symlinks_element(join_commas(quote_all(items)))),
        identifier_of(symlinks_element(join_commas(quote_all(items)))) == "symlinks"@,
        first_position(symlinks_element(join_commas(quote_all(items))), '=') == Some(8int),
        identifier_bound(symlinks_element(join_commas(quote_all(items)))) == 8,
        read_save_ok(8, symlinks_element(join_commas(quote_all(items)))),
        read_save_of(8, symlinks_element(join_commas(quote_all(items)))) == items,
{
    let qs = quote_all(items);
    let j = join_commas(qs);
    let p = symlinks_element(j);
    lemma_symlinks_element_shape(j);
    lemma_list_reads(items);
    lemma_quoted_items(items);
    assert(save_pieces(8, p) == qs);
    assert(read_save_of(8, p) == items);
    assert(read_save_ok(8, p));
}

/// Law: the save file that a run writes, where no path holds a `;` or a
/// `,`, splits into one element, the message without its `;`; that element
/// names `symlinks` with its `=` at byte 8, and `read_save` there gives the
/// `LINK=TARGET` items of the string-valued pairs, in order.
pub proof fn lemma_written_file_reads_back(pairs: Seq<(String, Option<String>)>)
    requires
        pairs_savable(pairs),
    ensures
        save_elements_of(symlinks_message(pairs)) == seq![symlinks_message(pairs).drop_last()],
        identifier_of(symlinks_message(pairs).drop_last()) == "symlinks"@,
        identifier_bound(symlinks_message(pairs).drop_last()) == 8,
        read_save_ok(8, symlinks_message(pairs).drop_last()),
        read_save_of(8, symlinks_message(pairs).drop_last()) == link_items(pairs),
{
    let items = link_items(pairs);
    lemma_items_savable(pairs);
    let qs = quote_all(items);
    lemma_quoted_items(items);
    assert forall|i: int| 0 <= i < qs.len() implies !(#[trigger] qs[i]).contains(';') by {}
    lemma_join_no_semicolon(qs);
    let j = join_commas(qs);
    lemma_message_elements(j);
    lemma_symlinks_element_reads(items);
    lemma_message_drop_last(j);
}

proof fn lemma_message_drop_last(j: Seq<char>)
    ensures
        ("symlinks=["@ + j + "];"@).drop_last() == symlinks_element(j),
{
    lemma_literals();
    reveal_strlit("]");
    assert(("symlinks=["@ + j + "];"@).drop_last() =~= symlinks_element(j));
}

/// Law: the symlinks element that a run writes reads back as the items it
/// was written from, where no path holds a `;` or a `,`: the save file then
/// reads without fault, its symlinks are the `LINK=TARGET` items of the
/// string-valued pairs, in order, and it holds no other identifier.
pub proof fn lemma_save_roundtrip(pairs: Seq<(String, Option<String>)>)
    requires
        pairs_savable(pairs),
    ensures
        save_ok(symlinks_message(pairs)),
        loaded(save_elements_of(symlinks_message(pairs))) == (link_items(pairs), Seq::<Seq<char>>::empty()),
{
    let items = link_items(pairs);
    lemma_items_savable(pairs);
    let qs = quote_all(items);
    lemma_quoted_items(items);
    assert forall|i: int| 0 <= i < qs.len() implies !(#[trigger] qs[i]).contains(';') by {}
    lemma_join_no_semicolon(qs);
    let j = join_commas(qs);
    lemma_message_elements(j);
    lemma_symlinks_element_reads(items);
    let es = save_elements_of(symlinks_message(pairs));
    assert(es == seq![symlinks_element(j)]);
    assert(es.drop_last() =~= Seq::<Seq<char>>::empty());
    assert(es.last() == symlinks_element(j));
    assert(loaded(es.drop_last()) == (Seq::<Seq<char>>::empty(), Seq::<Seq<char>>::empty()));
    assert(loaded(es) == (items, Seq::<Seq<char>>::empty()));
}

/// The non-empty pieces, each without its first and last character.
pub open spec fn unquote_pieces(pieces: Seq<Seq<char>>) -> Seq<Seq<char>> {
    pieces.filter(|p: Seq<char>| p.len() > 0).map_values(|p: Seq<char>| unquote(p))
}

fn unquote_nonempty(pieces: &Vec<String>) -> (r: Vec<String>)
    requires
        forall|i: int| 0 <= i < pieces.len() && (#[trigger] pieces@[i])@.len() > 0 ==> pieces@[i]@.len() >= 2,
    ensures
        texts(r@) == unquote_pieces(texts(pieces@)),
{
    let ghost pv = texts(pieces@);
    let mut r: Vec<String> = Vec::new();
    let mut i: usize = 0;
    while i < pieces.len()
        invariant
            i <= pieces.len(),
            pv == texts(pieces@),
            forall|k: int| 0 <= k < pieces.len() && (#[trigger] pieces@[k])@.len() > 0 ==> pieces@[k]@.len() >= 2,
            texts(r@) == unquote_pieces(pv.take(i as int)),
        decreases pieces.len() - i,
    {
        proof {
            assert(pv.take(i + 1).drop_last() =~= pv.take(i as int));
            assert(pv[i as int] == pieces@[i as int]@);
            reveal(Seq::filter);
        }
        let cs = to_chars(pieces[i].as_str());
        if cs.len() > 0 {
            let inner = from_chars(cs.as_slice(), 1, cs.len() - 1);
            let ghost before = texts(r@);
            r.push(inner);
            proof {
                assert(texts(r@) =~= before.push(unquote(pv[i as int])));
                assert(pv.take(i + 1).filter(|p: Seq<char>| p.len() > 0) == pv.take(i as int).filter(
                    |p: Seq<char>| p.len() > 0,
                ).push(pv[i as int]));
                assert(unquote_pieces(pv.take(i + 1)) =~= unquote_pieces(pv.take(i as int)).push(
                    unquote(pv[i as int]),
                ));
            }
        } else {
            proof {
                assert(pv.take(i + 1).filter(|p: Seq<char>| p.len() > 0) == pv.take(i as int).filter(
                    |p: Seq<char>| p.len() > 0,
                ));
            }
        }
        i = i + 1;
    }
    proof {
        assert(pv.take(i as int) =~= pv);
    }
    r
}

/// The byte positions of the list part lie within `value` and start characters.
pub open spec fn list_part_ok(bound: int, value: Seq<char>) -> bool {
    &&& 0 <= bound
    &&& bound + 2 <= byte_length(value) - 1
    &&& is_char_boundary_at(value, bound + 2)
    &&& is_char_boundary_at(value, byte_length(value) - 1)
}

/// The list part of a `symlinks=[...]` element whose `=` is at byte
/// position `identifier_bound`, where it can be cut out.
fn save_list_part(identifier_bound: usize, value: &str) -> (r: Option<String>)
    ensures
        match r {
            Some(rem) => list_part_ok(identifier_bound as int, value@) && rem@ == save_remainder(
                identifier_bound as int,
                value@,
            ),
            None => !list_part_ok(identifier_bound as int, value@),
        },
{
    let v = to_chars(value);
    let total = utf8_length(value);
    if total < 1 || identifier_bound > total - 1 || total - 1 - identifier_bound < 2 {
        return None;
    }
    match char_index_of_byte(v.as_slice(), total, identifier_bound + 2) {
        None => None,
        Some(c) => match char_index_of_byte(v.as_slice(), total, total - 1) {
            None => None,
            Some(d) => {
                proof {
                    if c > d {
                        crate::text::lemma_offset_strict(v@, d as int, c as int);
                    }
                }
                Some(from_chars(v.as_slice(), c, d))
            },
        },
    }
}

/// The saved symlinks of a `symlinks=[...]` element whose `=` is at byte
/// position `identifier_bound`: the list from the byte after `=[` to the
/// last byte (left out), cut at commas, each non-empty item without its
/// quotes.
pub fn read_save(identifier_bound: usize, value: String) -> (r: Vec<String>)
    requires
        read_save_ok(identifier_bound as int, value@),
    ensures
        texts(r@) == read_save_of(identifier_bound as int, value@),
{
    let rem = match save_list_part(identifier_bound, value.as_str()) {
        Some(rem) => rem,
        None => String::new(),
    };
    let pieces = split_on(rem.as_str(), ',');
    proof {
        assert(rem@ == save_remainder(identifier_bound as int, value@));
        assert forall|i: int| 0 <= i < pieces.len() && (#[trigger] pieces@[i])@.len() > 0 implies pieces@[i]@.len() >= 2 by {
            let pv = texts(pieces@);
            assert(pv[i] == pieces@[i]@);
            assert(pv.filter(|p: Seq<char>| p.len() > 0).contains(pv[i])) by {
                pv.lemma_filter_contains(|p: Seq<char>| p.len() > 0, i);
            }
            let k = choose|k: int| 0 <= k < save_pieces(identifier_bound as int, value@).len()
                && save_pieces(identifier_bound as int, value@)[k] == pv[i];
            assert(save_pieces(identifier_bound as int, value@)[k].len() >= 2);
        }
    }
    unquote_nonempty(&pieces)
}

/// The saved symlinks can be read from `value` when its `=` is at byte
/// position `identifier_bound`.
pub fn read_save_readable(identifier_bound: usize, value: &str) -> (r: bool)
    ensures
        r == read_save_ok(identifier_bound as int, value@),
{
    let rem = match save_list_part(identifier_bound, value) {
        Some(rem) => rem,
        None => {
            return false;
        },
    };
    let pieces = split_on(rem.as_str(), ',');
    let ghost pv = texts(pieces@);
    let ghost sp = save_pieces(identifier_bound as int, value@);
    proof {
        assert(sp == pv.filter(|p: Seq<char>| p.len() > 0));
    }
    let mut i: usize = 0;
    while i < pieces.len()
        invariant
            i <= pieces.len(),
            pv == texts(pieces@),
            sp == pv.filter(|p: Seq<char>| p.len() > 0),
            sp == save_pieces(identifier_bound as int, value@),
            list_part_ok(identifier_bound as int, value@),
            forall|k: int| 0 <= k < i && (#[trigger] pv[k]).len() > 0 ==> pv[k].len() >= 2
                && is_ascii_char(pv[k][0]) && is_ascii_char(pv[k].last()),
        decreases pieces.len() - i,
    {
        let cs = to_chars(pieces[i].as_str());
        proof {
            assert(pv[i as int] == cs@);
        }
        if cs.len() > 0 {
            if !(cs.len() >= 2 && (cs[0] as u32) < 128 && (cs[cs.len() - 1] as u32) < 128) {
                proof {
                    pv.lemma_filter_contains(|p: Seq<char>| p.len() > 0, i as int);
                    let k = choose|k: int| 0 <= k < sp.len() && sp[k] == pv[i as int];
                    assert(sp[k] == pv[i as int]);
                }
                return false;
            }
        }
        i = i + 1;
    }
    proof {
        assert forall|k: int| 0 <= k < sp.len() implies {
            let p = #[trigger] sp[k];
            p.len() >= 2 && is_ascii_char(p[0]) && is_ascii_char(p.last())
        } by {
            pv.lemma_filter_pred(|p: Seq<char>| p.len() > 0, k);
            assert(sp.contains(sp[k]));
            pv.lemma_filter_contains_rev(|p: Seq<char>| p.len() > 0, sp[k]);
            let m = choose|m: int| 0 <= m < pv.len() && pv[m] == sp[k];
            assert(pv[m].len() > 0);
        }
    }
    true
}

/// The elements of a save file's content.
pub fn save_file_elements(content: &str) -> (r: Vec<String>)
    ensures
        texts(r@) == save_elements_of(content@),
{
    let pieces = split_on(content, ';');
    let ghost pv = split_by(content@, ';');
    let ghost tv = pv.map_values(|p: Seq<char>| trim_end_char(p, '\n'));
    let mut r: Vec<String> = Vec::new();
    let mut i: usize = 0;
    while i < pieces.len()
        invariant
            i <= pieces.len(),
            texts(pieces@) == pv,
            tv == pv.map_values(|p: Seq<char>| trim_end_char(p, '\n')),
            texts(r@) == tv.take(i as int).filter(|e: Seq<char>| e.len() > 0),
        decreases pieces.len() - i,
    {
        proof {
            assert(tv.take(i + 1).drop_last() =~= tv.take(i as int));
            assert(pv[i as int] == pieces@[i as int]@);
            reveal(Seq::filter);
        }
        let e = trim_end_matches_char(pieces[i].as_str(), '\n');
        proof {
            assert(e@ == tv[i as int]);
        }
        let ghost before = texts(r@);
        if !e.as_str().is_empty() {
            let ghost ev = e@;
            r.push(e);
            proof {
                assert(texts(r@) =~= before.push(ev));
            }
        }
        i = i + 1;
    }
    proof {
        assert(tv.take(i as int) =~= tv);
    }
    r
}

/// The identifier of an element and the byte position of the `=` that ends it;
/// none where the element holds no `=`.
pub fn element_identifier(element: &str) -> (r: Option<(String, usize)>)
    ensures
        match r {
            Some(ib) => first_position(element@, '=') is Some && ib.1 == identifier_bound(element@) && ib.0@
                == identifier_of(element@),
            None => first_position(element@, '=') is None,
        },
{
    let v = to_chars(element);
    match find_char(v.as_slice(), '=') {
        Some(i) => {
            let ident = from_chars(v.as_slice(), 0, i);
            proof {
                assert(ident@ =~= identifier_of(element@));
            }
            let total = utf8_length(element);
            let bound = crate::text::byte_offset_of(v.as_slice(), total, i);
            Some((ident, bound))
        },
        None => None,
    }
}

/// Whether the loader can read a save file's content.
pub fn save_is_readable(content: &str) -> (r: bool)
    ensures
        r == save_ok(content@),
{
    let es = save_file_elements(content);
    let ghost ev = save_elements_of(content@);
    let symlinks = owned("symlinks");
    let mut i: usize = 0;
    while i < es.len()
        invariant
            i <= es.len(),
            texts(es@) == ev,
            ev == save_elements_of(content@),
            symlinks@ == "symlinks"@,
            forall|k: int| 0 <= k < i ==> element_ok(#[trigger] ev[k]),
        decreases es.len() - i,
    {
        proof {
            assert(ev[i as int] == es@[i as int]@);
        }
        match element_identifier(es[i].as_str()) {
            Some(ib) => {
                let (ident, bound) = ib;
                if ident == symlinks {
                    if !read_save_readable(bound, es[i].as_str()) {
                        return false;
                    }
                }
            },
            None => {
                return false;
            },
        }
        i = i + 1;
    }
    true
}

/// What a run reads of its save file.
pub struct SaveContents {
    /// The saved symlinks, `LINK=TARGET` each.
    pub symlinks: Vec<String>,
    /// The identifiers of the elements that are not recognised.
    pub unknown: Vec<String>,
}

/// Reads a save file's content: the symlinks of its last `symlinks`
/// element, and the identifiers it does not recognise.
pub fn load_save(content: &str) -> (r: SaveContents)
    requires
        save_ok(content@),
    ensures
        (texts(r.symlinks@), texts(r.unknown@)) == loaded(save_elements_of(content@)),
{
    let es = save_file_elements(content);
    let ghost ev = save_elements_of(content@);
    let symlinks_id = owned("symlinks");
    let mut symlinks: Vec<String> = Vec::new();
    let mut unknown: Vec<String> = Vec::new();
    let mut i: usize = 0;
    proof {
        assert(ev.take(0) =~= Seq::<Seq<char>>::empty());
        assert(texts(symlinks@) =~= Seq::<Seq<char>>::empty());
        assert(texts(unknown@) =~= Seq::<Seq<char>>::empty());
    }
    while i < es.len()
        invariant
            i <= es.len(),
            texts(es@) == ev,
            ev == save_elements_of(content@),
            save_ok(content@),
            symlinks_id@ == "symlinks"@,
            (texts(symlinks@), texts(unknown@)) == loaded(ev.take(i as int)),
        decreases es.len() - i,
    {
        proof {
            assert(ev[i as int] == es@[i as int]@);
            assert(ev.take(i + 1).drop_last() =~= ev.take(i as int));
            assert(ev.take(i + 1).last() == ev[i as int]);
            assert(element_ok(ev[i as int]));
        }
        match element_identifier(es[i].as_str()) {
            Some(ib) => {
                let (ident, bound) = ib;
                if ident == symlinks_id {
                    symlinks = read_save(bound, es[i].clone());
                } else {
                    let ghost before = texts(unknown@);
                    let ghost iv = ident@;
                    unknown.push(ident);
                    proof {
                        assert(texts(unknown@) =~= before.push(iv));
                    }
                }
            },
            None => {},
        }
        i = i + 1;
    }
    proof {
        assert(ev.take(i as int) =~= ev);
    }
    SaveContents { symlinks, unknown }
}

/// The items of the string-valued pairs, each `LINK=TARGET`, in order.
pub fn link_item_list(pairs: &Vec<(String, Option<String>)>) -> (r: Vec<String>)
    ensures
        texts(r@) == link_items(pairs@),
{
    let mut r: Vec<String> = Vec::new();
    let mut i: usize = 0;
    while i < pairs.len()
        invariant
            i <= pairs.len(),
            texts(r@) == link_items(pairs@.take(i as int)),
        decreases pairs.len() - i,
    {
        proof {
            assert(pairs@.take(i + 1).drop_last() =~= pairs@.take(i as int));
            assert(pairs@.take(i + 1).last() == pairs@[i as int]);
        }
        let (link, target) = &pairs[i];
        match target {
            Some(t) => {
                let mut item = link.clone();
                item.append("=");
                item.append(t.as_str());
                let ghost before = texts(r@);
                let ghost iv = item@;
                r.push(item);
                proof {
                    assert(texts(r@) =~= before.push(iv));
                }
            },
            None => {},
        }
        i = i + 1;
    }
    proof {
        assert(pairs@.take(i as int) =~= pairs@);
    }
    r
}

/// The symlinks element that records the string-valued pairs (link, target)
/// of the symlinks table: `symlinks=["LINK=TARGET",...];`.
pub fn symlinks_save_message(pairs: &Vec<(String, Option<String>)>) -> (r: String)
    ensures
        r@ == symlinks_message(pairs@),
{
    let items = link_item_list(pairs);
    let ghost iv = texts(items@);
    let ghost qs = quote_all(iv);
    let mut joined = String::new();
    let mut i: usize = 0;
    proof {
        assert(joined@ =~= join_commas(qs.take(0)));
    }
    while i < items.len()
        invariant
            i <= items.len(),
            iv == texts(items@),
            qs == quote_all(iv),
            joined@ == join_commas(qs.take(i as int)),
        decreases items.len() - i,
    {
        proof {
            assert(qs.take(i + 1).drop_last() =~= qs.take(i as int));
            assert(qs.take(i + 1).last() == qs[i as int]);
            assert(qs[i as int] == quoted(items@[i as int]@));
        }
        let ghost before = joined@;
        if i > 0 {
            joined.append(",");
        }
        joined.append("\"");
        joined.append(items[i].as_str());
        joined.append("\"");
        proof {
            if i == 0 {
                assert(qs.take(1) =~= seq![qs[0]]);
                assert(joined@ =~= join_commas(qs.take(1)));
            } else {
                assert(joined@ =~= join_commas(qs.take(i + 1)));
            }
        }
        i = i + 1;
    }
    proof {
        assert(qs.take(i as int) =~= qs);
    }
    let mut r = owned("symlinks=[");
    r.append(joined.as_str());
    r.append("];");
    r
}

/// Where the save file is: `save.king` in the `Base` install location.
pub fn save_file_location(base: &str) -> (r: String)
    ensures
        r@ == base@ + "/save.king"@,
{
    let mut r = owned(base);
    r.append("/save.king");
    r
}

} // verus!
