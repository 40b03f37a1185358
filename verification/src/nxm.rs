//! Links of the NXM protocol, by which a browser hands a download over.
use vstd::prelude::*;

use crate::number::{
    decimal, is_digit_row, lemma_decimal_digits, parse_inverts_decimal, parse_u64, parsed,
};
use crate::text::{
    chars_of, concat2, concat3, first_index, has_prefix, index_from, lemma_first_index,
    lemma_first_index_is, owned, pieces, same, split, string_between, strip_prefix,
};

verus! {

/// A parsed NXM link.
///
/// Format: `nxm://GAME_DOMAIN/mods/MOD_ID/files/FILE_ID?key=KEY&expires=EXPIRES&user_id=USER_ID`
#[derive(Debug)]
pub struct NxmUrl {
    pub game_domain: String,
    pub mod_id: u64,
    pub file_id: u64,
    pub key: Option<String>,
    pub expires: Option<String>,
}

/// An [`NxmUrl`] as a mathematical value.
#[verifier::ext_equal]
pub ghost struct NxmUrlView {
    pub game_domain: Seq<char>,
    pub mod_id: u64,
    pub file_id: u64,
    pub key: Option<Seq<char>>,
    pub expires: Option<Seq<char>>,
}

impl DeepView for NxmUrl {
    type V = NxmUrlView;

    open spec fn deep_view(&self) -> NxmUrlView {
        NxmUrlView {
            game_domain: self.game_domain@,
            mod_id: self.mod_id,
            file_id: self.file_id,
            key: self.key.deep_view(),
            expires: self.expires.deep_view(),
        }
    }
}

impl Clone for NxmUrl {
    fn clone(&self) -> (r: Self)
        ensures
            r.deep_view() == self.deep_view(),
    {
        NxmUrl {
            game_domain: owned(self.game_domain.as_str()),
            mod_id: self.mod_id,
            file_id: self.file_id,
            key: match &self.key {
                Some(k) => Some(owned(k.as_str())),
                None => None,
            },
            expires: match &self.expires {
                Some(e) => Some(owned(e.as_str())),
                None => None,
            },
        }
    }
}

/// The value of the last of the parameters that has the name, if one has.
pub open spec fn parameter(params: Seq<Seq<char>>, name: Seq<char>) -> Option<Seq<char>>
    decreases params.len(),
{
    if params.len() == 0 {
        None
    } else {
        let p = params.last();
        let k = first_index(p, '=');
        if k < p.len() && p.take(k) == name {
            Some(p.skip(k + 1))
        } else {
            parameter(params.drop_last(), name)
        }
    }
}

/// What the path and the parameters of a link say.
pub open spec fn parsed_parts(path: Seq<char>, params: Seq<Seq<char>>) -> Result<
    NxmUrlView,
    Seq<char>,
> {
    let segments = pieces(path, '/');
    if segments.len() < 5 {
        Err("Invalid NXM URL path: "@ + path)
    } else if segments[1] != "mods"@ {
        Err("Expected 'mods' in NXM URL, got '"@ + segments[1] + "'"@)
    } else if parsed(segments[2], u64::MAX as nat) is None {
        Err("Invalid mod ID: "@ + segments[2])
    } else if segments[3] != "files"@ {
        Err("Expected 'files' in NXM URL, got '"@ + segments[3] + "'"@)
    } else if parsed(segments[4], u64::MAX as nat) is None {
        Err("Invalid file ID: "@ + segments[4])
    } else {
        Ok(
            NxmUrlView {
                game_domain: segments[0],
                mod_id: parsed(segments[2], u64::MAX as nat)->0 as u64,
                file_id: parsed(segments[4], u64::MAX as nat)->0 as u64,
                key: parameter(params, "key"@),
                expires: parameter(params, "expires"@),
            },
        )
    }
}

/// What an NXM link says.
pub open spec fn parsed_link(url: Seq<char>) -> Result<NxmUrlView, Seq<char>> {
    if !has_prefix(url, "nxm://"@) {
        Err("Not an NXM URL: "@ + url)
    } else {
        let rest = url.skip("nxm://"@.len() as int);
        let q = first_index(rest, '?');
        if q < rest.len() {
            parsed_parts(rest.take(q), pieces(rest.skip(q + 1), '&'))
        } else {
            parsed_parts(rest, Seq::empty())
        }
    }
}

/// The name and the value of a parameter, if it has an equals sign.
fn split_parameter(p: &str) -> (r: Option<(String, String)>)
    ensures
        ({
            let k = first_index(p@, '=');
            match r {
                Some((name, value)) => k < p@.len() && name@ == p@.take(k) && value@ == p@.skip(
                    k + 1,
                ),
                None => k >= p@.len(),
            }
        }),
{
    let v = chars_of(p);
    let k = index_from(&v, '=', 0);
    assert(v@.skip(0) =~= p@);
    if k < v.len() {
        let name = string_between(&v, 0, k);
        let value = string_between(&v, k + 1, v.len());
        assert(name@ =~= p@.take(k as int));
        assert(value@ =~= p@.skip(k + 1));
        Some((name, value))
    } else {
        None
    }
}

impl NxmUrl {
    fn from_parts(path: &str, params: &Vec<String>) -> (r: Result<NxmUrl, String>)
        ensures
            match parsed_parts(path@, params.deep_view()) {
                Ok(u) => r is Ok && r->Ok_0.deep_view() == u,
                Err(e) => r is Err && r->Err_0@ == e,
            },
    {
        let segments = split(path, '/');
        let ghost ss = segments.deep_view();
        if segments.len() < 5 {
            return Err(concat2("Invalid NXM URL path: ", path));
        }
        assert(ss[0] == segments@[0]@ && ss[1] == segments@[1]@ && ss[2] == segments@[2]@ && ss[3]
            == segments@[3]@ && ss[4] == segments@[4]@);
        if !same(segments[1].as_str(), "mods") {
            return Err(concat3("Expected 'mods' in NXM URL, got '", segments[1].as_str(), "'"));
        }
        let mod_id = match parse_u64(segments[2].as_str()) {
            Some(n) => n,
            None => {
                return Err(concat2("Invalid mod ID: ", segments[2].as_str()));
            },
        };
        if !same(segments[3].as_str(), "files") {
            return Err(concat3("Expected 'files' in NXM URL, got '", segments[3].as_str(), "'"));
        }
        let file_id = match parse_u64(segments[4].as_str()) {
            Some(n) => n,
            None => {
                return Err(concat2("Invalid file ID: ", segments[4].as_str()));
            },
        };
        let mut key: Option<String> = None;
        let mut expires: Option<String> = None;
        let ghost ps = params.deep_view();
        for i in 0..params.len()
            invariant
                ps == params.deep_view(),
                key.deep_view() == parameter(ps.take(i as int), "key"@),
                expires.deep_view() == parameter(ps.take(i as int), "expires"@),
        {
            assert(ps[i as int] == params@[i as int]@);
            assert(ps.take(i + 1).drop_last() =~= ps.take(i as int));
            proof {
                reveal_strlit("key");
                reveal_strlit("expires");
                assert("key"@.len() != "expires"@.len());
            }
            match split_parameter(params[i].as_str()) {
                Some((name, value)) => {
                    if same(name.as_str(), "key") {
                        key = Some(value);
                    } else if same(name.as_str(), "expires") {
                        expires = Some(value);
                    }
                },
                None => {},
            }
        }
        assert(ps.take(ps.len() as int) =~= ps);
        Ok(NxmUrl { game_domain: owned(segments[0].as_str()), mod_id, file_id, key, expires })
    }

    /// Parses an NXM link into its components.
    pub fn parse(url: &str) -> (r: Result<NxmUrl, String>)
        ensures
            match parsed_link(url@) {
                Ok(u) => r is Ok && r->Ok_0.deep_view() == u,
                Err(e) => r is Err && r->Err_0@ == e,
            },
    {
        let rest = match strip_prefix(url, "nxm://") {
            Some(s) => s,
            None => {
                return Err(concat2("Not an NXM URL: ", url));
            },
        };
        let v = chars_of(rest.as_str());
        let q = index_from(&v, '?', 0);
        assert(v@.skip(0) =~= rest@);
        if q < v.len() {
            let path = string_between(&v, 0, q);
            let query = string_between(&v, q + 1, v.len());
            assert(path@ =~= rest@.take(q as int));
            assert(query@ =~= rest@.skip(q + 1));
            let params = split(query.as_str(), '&');
            NxmUrl::from_parts(path.as_str(), &params)
        } else {
            let none: Vec<String> = Vec::new();
            assert(none.deep_view() =~= Seq::empty());
            NxmUrl::from_parts(rest.as_str(), &none)
        }
    }
}

// ── Laws ────────────────────────────────────────────────────────────────────

/// The pieces with `c` between them.
pub open spec fn interspersed(ps: Seq<Seq<char>>, c: char) -> Seq<char>
    decreases ps.len(),
{
    if ps.len() == 0 {
        Seq::empty()
    } else if ps.len() == 1 {
        ps[0]
    } else {
        interspersed(ps.drop_last(), c).push(c) + ps.last()
    }
}

proof fn lemma_pieces_extended(s: Seq<char>, b: Seq<char>, c: char)
    requires
        !b.contains(c),
    ensures
        pieces(s, c).len() >= 1,
        pieces(s + b, c) == pieces(s, c).drop_last().push(pieces(s, c).last() + b),
    decreases b.len(),
{
    crate::text::lemma_pieces_nonempty(s, c);
    let p = pieces(s, c);
    if b.len() == 0 {
        assert(s + b =~= s);
        assert(p.last() + b =~= p.last());
        assert(p.drop_last().push(p.last()) =~= p);
    } else {
        let d = b.drop_last();
        assert(!d.contains(c)) by {
            if d.contains(c) {
                let i = choose|i: int| 0 <= i < d.len() && d[i] == c;
                assert(b[i] == c);
            }
        }
        lemma_pieces_extended(s, d, c);
        assert((s + b).drop_last() =~= s + d);
        assert((s + b).last() == b.last());
        assert(b.contains(b.last()));
        let q = pieces(s + d, c);
        assert(q.drop_last() =~= p.drop_last());
        assert((p.last() + d).push(b.last()) =~= p.last() + b);
    }
}

/// Pieces without `c` are found again between the `c`s that part them.
pub proof fn interspersed_pieces_are_found(ps: Seq<Seq<char>>, c: char)
    requires
        ps.len() > 0,
        forall|i: int| 0 <= i < ps.len() ==> !(#[trigger] ps[i]).contains(c),
    ensures
        pieces(interspersed(ps, c), c) == ps,
    decreases ps.len(),
{
    if ps.len() == 1 {
        let none = Seq::<char>::empty();
        lemma_pieces_extended(none, ps[0], c);
        assert(none + ps[0] =~= ps[0]);
        assert(pieces(none, c) =~= seq![none]);
        assert(pieces(ps[0], c) =~= ps);
    } else {
        let rest = ps.drop_last();
        assert forall|i: int| 0 <= i < rest.len() implies !(#[trigger] rest[i]).contains(c) by {
            assert(rest[i] == ps[i]);
        }
        interspersed_pieces_are_found(rest, c);
        let s = interspersed(rest, c);
        let t = s.push(c);
        assert(t.drop_last() =~= s);
        assert(pieces(t, c) == rest.push(Seq::empty()));
        assert(!ps[ps.len() - 1].contains(c));
        lemma_pieces_extended(t, ps.last(), c);
        assert(rest.push(Seq::<char>::empty()).drop_last() =~= rest);
        assert(Seq::<char>::empty() + ps.last() =~= ps.last());
        assert(rest.push(ps.last()) =~= ps);
    }
}

/// The path of a link.
pub open spec fn link_path(u: NxmUrlView) -> Seq<char> {
    interspersed(
        seq![
            u.game_domain,
            "mods"@,
            decimal(u.mod_id as nat),
            "files"@,
            decimal(u.file_id as nat),
        ],
        '/',
    )
}

/// The parameters of a link.
pub open spec fn link_parameters(u: NxmUrlView) -> Seq<Seq<char>> {
    (if u.key is Some {
        seq!["key="@ + u.key->0]
    } else {
        Seq::empty()
    }) + (if u.expires is Some {
        seq!["expires="@ + u.expires->0]
    } else {
        Seq::empty()
    })
}

/// The text of a link.
pub open spec fn link_text(u: NxmUrlView) -> Seq<char> {
    if link_parameters(u).len() == 0 {
        "nxm://"@ + link_path(u)
    } else {
        "nxm://"@ + (link_path(u).push('?') + interspersed(link_parameters(u), '&'))
    }
}

proof fn lemma_named_parameter(name: Seq<char>, value: Seq<char>)
    requires
        !name.contains('='),
    ensures
        first_index(name.push('=') + value, '=') == name.len(),
        (name.push('=') + value).take(name.len() as int) == name,
        (name.push('=') + value).skip(name.len() as int + 1) == value,
{
    let p = name.push('=') + value;
    assert forall|i: int| 0 <= i < name.len() implies p[i] != '=' by {
        assert(p[i] == name[i]);
        assert(name.contains(name[i]));
    }
    lemma_first_index_is(p, '=', name.len() as int);
    assert(p.take(name.len() as int) =~= name);
    assert(p.skip(name.len() as int + 1) =~= value);
}

proof fn lemma_link_parameters(u: NxmUrlView)
    ensures
        parameter(link_parameters(u), "key"@) == u.key,
        parameter(link_parameters(u), "expires"@) == u.expires,
{
    reveal_with_fuel(parameter, 3);
    reveal_strlit("key");
    reveal_strlit("key=");
    reveal_strlit("expires");
    reveal_strlit("expires=");
    assert("key="@ =~= "key"@.push('='));
    assert("expires="@ =~= "expires"@.push('='));
    assert(!"key"@.contains('='));
    assert(!"expires"@.contains('='));
    assert("key"@.len() != "expires"@.len());
    let ps = link_parameters(u);
    if u.key is Some {
        lemma_named_parameter("key"@, u.key->0);
    }
    if u.expires is Some {
        lemma_named_parameter("expires"@, u.expires->0);
    }
    if u.key is Some && u.expires is Some {
        assert(ps =~= seq!["key="@ + u.key->0, "expires="@ + u.expires->0]);
        assert(ps.drop_last() =~= seq!["key="@ + u.key->0]);
        assert(ps.drop_last().drop_last() =~= Seq::empty());
    } else if u.key is Some {
        assert(ps =~= seq!["key="@ + u.key->0]);
        assert(ps.drop_last() =~= Seq::empty());
    } else if u.expires is Some {
        assert(ps =~= seq!["expires="@ + u.expires->0]);
        assert(ps.drop_last() =~= Seq::empty());
    } else {
        assert(ps =~= Seq::empty());
    }
}

proof fn lemma_link_path(u: NxmUrlView)
    requires
        !u.game_domain.contains('/'),
        !u.game_domain.contains('?'),
    ensures
        parsed_parts(link_path(u), link_parameters(u)) == Ok::<NxmUrlView, Seq<char>>(u),
        !link_path(u).contains('?'),
{
    let segments = seq![
        u.game_domain,
        "mods"@,
        decimal(u.mod_id as nat),
        "files"@,
        decimal(u.file_id as nat),
    ];
    assert forall|i: int| 0 <= i < segments.len() implies !(#[trigger] segments[i]).contains('/')
        && !segments[i].contains('?') by {
        lemma_decimal_digits(u.mod_id as nat);
        lemma_decimal_digits(u.file_id as nat);
        reveal_strlit("mods");
        reveal_strlit("files");
        let s = segments[i];
        if i == 0 {
        } else if i == 1 {
            assert(s == "mods"@);
        } else if i == 3 {
            assert(s == "files"@);
        } else {
            assert(is_digit_row(s));
        }
    }
    interspersed_pieces_are_found(segments, '/');
    lemma_free_of(segments, '/', '?');
    lemma_link_parameters(u);
    parse_inverts_decimal(u.mod_id as nat, u64::MAX as nat);
    parse_inverts_decimal(u.file_id as nat, u64::MAX as nat);
}

proof fn lemma_no_ampersand(name: Seq<char>, value: Seq<char>)
    requires
        !name.contains('&'),
        !value.contains('&'),
    ensures
        !(name + value).contains('&'),
{
    let p = name + value;
    if p.contains('&') {
        let k = choose|k: int| 0 <= k < p.len() && p[k] == '&';
        if k >= name.len() {
            assert(value[k - name.len()] == '&');
        } else {
            assert(name[k] == '&');
        }
    }
}

proof fn lemma_parameters_apart(u: NxmUrlView)
    requires
        u.key is Some ==> !u.key->0.contains('&'),
        u.expires is Some ==> !u.expires->0.contains('&'),
        link_parameters(u).len() > 0,
    ensures
        pieces(interspersed(link_parameters(u), '&'), '&') == link_parameters(u),
{
    reveal_strlit("key=");
    reveal_strlit("expires=");
    let params = link_parameters(u);
    if u.key is Some {
        lemma_no_ampersand("key="@, u.key->0);
    }
    if u.expires is Some {
        lemma_no_ampersand("expires="@, u.expires->0);
    }
    assert forall|i: int| 0 <= i < params.len() implies !(#[trigger] params[i]).contains('&') by {
        if u.key is Some && i == 0 {
            assert(params[i] == "key="@ + u.key->0);
        } else {
            assert(params[i] == "expires="@ + u.expires->0);
        }
    }
    interspersed_pieces_are_found(params, '&');
}

/// A link whose parts hold none of the characters that part them is read back
/// as it was written.
pub proof fn nxm_link_is_read_back(u: NxmUrlView)
    requires
        !u.game_domain.contains('/'),
        !u.game_domain.contains('?'),
        u.key is Some ==> !u.key->0.contains('&'),
        u.expires is Some ==> !u.expires->0.contains('&'),
    ensures
        parsed_link(link_text(u)) == Ok::<NxmUrlView, Seq<char>>(u),
{
    lemma_link_path(u);
    let path = link_path(u);
    let params = link_parameters(u);
    let text = link_text(u);
    let head = "nxm://"@;
    assert(has_prefix(text, head)) by {
        assert(text.subrange(0, head.len() as int) =~= head);
    }
    let rest = text.skip(head.len() as int);
    if params.len() == 0 {
        assert(rest =~= path);
        lemma_first_index(rest, '?');
        assert(params =~= Seq::empty());
    } else {
        let query = interspersed(params, '&');
        assert(rest =~= path.push('?') + query);
        assert forall|i: int| 0 <= i < path.len() implies rest[i] != '?' by {
            assert(rest[i] == path[i]);
            assert(path.contains(path[i]));
        }
        lemma_first_index_is(rest, '?', path.len() as int);
        assert(rest.take(path.len() as int) =~= path);
        assert(rest.skip(path.len() as int + 1) =~= query);
        lemma_parameters_apart(u);
    }
}

proof fn lemma_free_of(ps: Seq<Seq<char>>, c: char, d: char)
    requires
        c != d,
        forall|i: int| 0 <= i < ps.len() ==> !(#[trigger] ps[i]).contains(d),
    ensures
        !interspersed(ps, c).contains(d),
    decreases ps.len(),
{
    if ps.len() >= 2 {
        let rest = ps.drop_last();
        assert forall|i: int| 0 <= i < rest.len() implies !(#[trigger] rest[i]).contains(d) by {
            assert(rest[i] == ps[i]);
        }
        lemma_free_of(rest, c, d);
        let s = interspersed(rest, c);
        let t = interspersed(ps, c);
        if t.contains(d) {
            let k = choose|k: int| 0 <= k < t.len() && t[k] == d;
            if k < s.len() {
                assert(s[k] == d);
            } else {
                assert(!ps[ps.len() - 1].contains(d));
                assert(ps.last()[k - s.len() - 1] == d);
            }
        }
    }
}

/// What does not start with `nxm://` is no link.
pub proof fn other_addresses_are_refused(url: Seq<char>)
    requires
        !seq!['n', 'x', 'm', ':', '/', '/'].is_prefix_of(url),
    ensures
        parsed_link(url) is Err,
{
    reveal_strlit("nxm://");
    let head = seq!['n', 'x', 'm', ':', '/', '/'];
    assert("nxm://"@ =~= head);
    if has_prefix(url, head) {
        assert(head.is_prefix_of(url));
    }
}

/// A link whose path has other words than `mods` and `files` in their places, or
/// no numbers behind them, is refused.
pub proof fn links_without_numbers_are_refused(segments: Seq<Seq<char>>, params: Seq<Seq<char>>)
    requires
        segments.len() > 0,
        forall|i: int| 0 <= i < segments.len() ==> !(#[trigger] segments[i]).contains('/'),
        segments.len() < 5 || segments[1] != "mods"@ || segments[3] != "files"@ || parsed(
            segments[2],
            u64::MAX as nat,
        ) is None || parsed(segments[4], u64::MAX as nat) is None,
    ensures
        parsed_parts(interspersed(segments, '/'), params) is Err,
{
    interspersed_pieces_are_found(segments, '/');
}

} // verus!
