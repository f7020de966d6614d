//! The parameters of an API request, read from a form-encoded body
//! (`key=value` pairs separated by `&`), and the check of their signature.

use vstd::prelude::*;
use crate::str_map::{StrMap, texts, text_pairs, keys_sorted, map_of_pairs, lemma_text_pairs};
use crate::text::{
    split_on, split_str, views_of, to_lowercase, lowercase, join, join_strings, lower_hex, to_lower_hex,
    lemma_split_on_without_sep, lemma_split_on_append, law_lower_hex_shape, ascii_lower,
    ascii_upper, law_ascii_case, law_split_on_len, law_split_on_concat,
};
use vstd::utf8::is_ascii_chars;
use crate::str_map::{lemma_map_of_pairs_index, lemma_sorted_listing_unique};
use vstd::utf8::encode_utf8;

verus! {

/// The key of one `key=value` piece of a form: the text before its first `=`.
pub open spec fn piece_key(piece: Seq<char>) -> Seq<char> {
    split_on(piece, '=')[0]
}

/// The value of one `key=value` piece of a form: the text between its first `=`
/// and the next `=` or its end.
pub open spec fn piece_value(piece: Seq<char>) -> Seq<char> {
    split_on(piece, '=')[1]
}

/// The key of a piece is the text before its first `=`, and its value the text after
/// it up to the next `=`, whatever follows.
pub proof fn law_piece_parts(k: Seq<char>, v: Seq<char>, rest: Seq<char>)
    requires
        !k.contains('='),
        !v.contains('='),
    ensures
        piece_key(k + seq!['='] + v) == k,
        piece_value(k + seq!['='] + v) == v,
        piece_key(k + seq!['='] + v + seq!['='] + rest) == k,
        piece_value(k + seq!['='] + v + seq!['='] + rest) == v,
{
    law_split_on_concat(k, v, '=');
    law_split_on_concat(k, v + seq!['='] + rest, '=');
    law_split_on_concat(v, rest, '=');
    lemma_split_on_without_sep(k, '=');
    lemma_split_on_without_sep(v, '=');
    assert(k + seq!['='] + v + seq!['='] + rest =~= k + seq!['='] + (v + seq!['='] + rest));
}

/// Whether every `&`-separated piece of `form` holds a `=`.
pub open spec fn form_well_formed(form: Seq<char>) -> bool {
    forall|i: int| 0 <= i < split_on(form, '&').len() ==> #[trigger] split_on(split_on(form, '&')[i], '=').len() >= 2
}

/// The (key, value) pairs of a form, in the order in which they stand.
pub open spec fn form_pairs(form: Seq<char>) -> Seq<(Seq<char>, Seq<char>)> {
    split_on(form, '&').map_values(|p: Seq<char>| (piece_key(p), piece_value(p)))
}

/// The value of each key, where a later pair overrides an earlier one with the same key.
pub open spec fn values_of_pairs(ps: Seq<(Seq<char>, Seq<char>)>) -> Map<Seq<char>, Seq<char>>
    decreases ps.len(),
{
    if ps.len() == 0 {
        Map::empty()
    } else {
        values_of_pairs(ps.drop_last()).insert(ps.last().0, ps.last().1)
    }
}

/// For each lower-cased key, the key as it was given, where a later pair overrides
/// an earlier one whose key lower-cases the same way.
pub open spec fn lower_keys_of_pairs(ps: Seq<(Seq<char>, Seq<char>)>) -> Map<Seq<char>, Seq<char>>
    decreases ps.len(),
{
    if ps.len() == 0 {
        Map::empty()
    } else {
        lower_keys_of_pairs(ps.drop_last()).insert(lowercase(ps.last().0), ps.last().0)
    }
}

/// The value found for `key` ignoring its case: the key is lower-cased, mapped to the
/// key as it was given, and that key to its value; the empty text where either is missing.
pub open spec fn lookup_value(
    keys: Map<Seq<char>, Seq<char>>,
    values: Map<Seq<char>, Seq<char>>,
    key: Seq<char>,
) -> Seq<char> {
    lookup_lower(keys, values, lowercase(key))
}

/// The value found for the lower-cased key `lower`: mapped to the key as it was given,
/// and that key to its value; the empty text where either is missing.
pub open spec fn lookup_lower(
    keys: Map<Seq<char>, Seq<char>>,
    values: Map<Seq<char>, Seq<char>>,
    lower: Seq<char>,
) -> Seq<char> {
    if keys.dom().contains(lower) && values.dom().contains(keys[lower]) {
        values[keys[lower]]
    } else {
        Seq::<char>::empty()
    }
}

/// Every key given in a list of pairs is a key of their values, and lower-cases to the
/// key under which it is found.
proof fn lemma_keys_have_values(ps: Seq<(Seq<char>, Seq<char>)>)
    ensures
        forall|k: Seq<char>| #[trigger] lower_keys_of_pairs(ps).dom().contains(k)
            ==> values_of_pairs(ps).dom().contains(lower_keys_of_pairs(ps)[k])
                && lowercase(lower_keys_of_pairs(ps)[k]) == k,
    decreases ps.len(),
{
    if ps.len() > 0 {
        let prev = ps.drop_last();
        lemma_keys_have_values(prev);
        assert forall|k: Seq<char>| #[trigger] lower_keys_of_pairs(ps).dom().contains(k)
            implies values_of_pairs(ps).dom().contains(lower_keys_of_pairs(ps)[k])
                && lowercase(lower_keys_of_pairs(ps)[k]) == k by {
            if k != lowercase(ps.last().0) {
                assert(lower_keys_of_pairs(prev).dom().contains(k));
            }
        }
    }
}

/// A form is well formed exactly when each of its `&`-separated pieces holds a `=`,
/// however many more `=` it holds.
pub proof fn law_form_well_formed(form: Seq<char>)
    ensures
        form_well_formed(form) <==> forall|i: int| 0 <= i < split_on(form, '&').len()
            ==> (#[trigger] split_on(form, '&')[i]).contains('='),
{
    let pieces = split_on(form, '&');
    assert forall|i: int| 0 <= i < pieces.len() implies (split_on(#[trigger] pieces[i], '=').len() >= 2
        <==> pieces[i].contains('=')) by {
        law_split_on_len(pieces[i], '=');
    }
}

/// Whether every `&`-separated piece of `form_str` holds a `=`, as `Parameter::new` needs.
pub fn form_is_well_formed(form_str: &str) -> (r: bool)
    ensures
        r == form_well_formed(form_str@),
        r == (forall|i: int| 0 <= i < split_on(form_str@, '&').len() ==> (#[trigger] split_on(form_str@, '&')[i]).contains('=')),
{
    proof {
        law_form_well_formed(form_str@);
    }
    let pieces = split_str(form_str, '&');
    let mut i: usize = 0;
    while i < pieces.len()
        invariant
            i <= pieces@.len(),
            views_of(pieces@) == split_on(form_str@, '&'),
            forall|j: int| 0 <= j < i ==> #[trigger] split_on(split_on(form_str@, '&')[j], '=').len() >= 2,
        decreases pieces@.len() - i,
    {
        let parts = split_str(pieces[i].as_str(), '=');
        assert(split_on(form_str@, '&')[i as int] == pieces@[i as int]@);
        if parts.len() < 2 {
            assert(views_of(parts@).len() == parts@.len());
            proof {
                law_split_on_len(split_on(form_str@, '&')[i as int], '=');
                assert(!(split_on(form_str@, '&')[i as int]).contains('='));
            }
            return false;
        }
        assert(views_of(parts@).len() == parts@.len());
        i = i + 1;
    }
    assert(views_of(pieces@).len() == pieces@.len());
    true
}

/// The MD5 digest of `data`.
pub uninterp spec fn md5_digest(data: Seq<u8>) -> Seq<u8>;

/// `md5::compute`: the contract names its result `md5_digest` of the bytes and says it
/// is 16 bytes long; the digest algorithm itself is not stated.
#[verifier::external_body]
fn md5_compute(data: &[u8]) -> (r: Vec<u8>)
    ensures
        r@ == md5_digest(data@),
        r@.len() == 16,
{
    md5::compute(data).0.to_vec()
}

/// Every parameter but `sign` is signed: the signed entries are those of `order` whose
/// lower-cased key is not `sign`, each as `key=value`, in the order of `order`.
pub proof fn law_signed_entries(order: Seq<(Seq<char>, Seq<char>)>, values: Map<Seq<char>, Seq<char>>)
    ensures
        signed_entries(order, values) == order.filter(|e: (Seq<char>, Seq<char>)| e.0 != "sign"@).map_values(
            |e: (Seq<char>, Seq<char>)| e.1 + "="@ + values[e.1],
        ),
    decreases order.len(),
{
    reveal_with_fuel(Seq::filter, 1);
    let pred = |e: (Seq<char>, Seq<char>)| e.0 != "sign"@;
    let f = |e: (Seq<char>, Seq<char>)| e.1 + "="@ + values[e.1];
    if order.len() > 0 {
        law_signed_entries(order.drop_last(), values);
        let sub = order.drop_last().filter(pred);
        if pred(order.last()) {
            assert(sub.push(order.last()).map_values(f) =~= sub.map_values(f).push(f(order.last())));
        }
    } else {
        assert(order.filter(pred).map_values(f) =~= Seq::<Seq<char>>::empty());
    }
}

/// For each entry of `order` (lower-cased key, key as written) but the one whose lower-cased
/// key is `sign`, the text `key=value`, in the order of `order`.
pub open spec fn signed_entries(
    order: Seq<(Seq<char>, Seq<char>)>,
    values: Map<Seq<char>, Seq<char>>,
) -> Seq<Seq<char>>
    decreases order.len(),
{
    if order.len() == 0 {
        Seq::<Seq<char>>::empty()
    } else {
        let prev = signed_entries(order.drop_last(), values);
        let e = order.last();
        if e.0 == "sign"@ {
            prev
        } else {
            prev.push(e.1 + "="@ + values[e.1])
        }
    }
}

/// The value of the last entry of `order` whose lower-cased key is `sign`; empty if none.
pub open spec fn given_sign(order: Seq<(Seq<char>, Seq<char>)>, values: Map<Seq<char>, Seq<char>>) -> Seq<char>
    decreases order.len(),
{
    if order.len() == 0 {
        Seq::<char>::empty()
    } else if order.last().0 == "sign"@ {
        values[order.last().1]
    } else {
        given_sign(order.drop_last(), values)
    }
}

/// The text that is signed: the `key=value` entries joined by `&`, then `&secret=` and the secret.
pub open spec fn signing_text(
    order: Seq<(Seq<char>, Seq<char>)>,
    values: Map<Seq<char>, Seq<char>>,
    secret: Seq<char>,
) -> Seq<char> {
    join(signed_entries(order, values), "&"@) + "&secret="@ + secret
}

/// The signature of a text: the lower-case hexadecimal MD5 digest of its UTF-8 bytes.
pub open spec fn signature_of(text: Seq<char>) -> Seq<char> {
    lower_hex(md5_digest(encode_utf8(text)))
}

/// Whether `s` has the shape of an MD5 signature: 32 lower-case hexadecimal digits.
pub open spec fn is_hex_digest(s: Seq<char>) -> bool {
    &&& s.len() == 32
    &&& forall|i: int| 0 <= i < s.len() ==> {
        let c = #[trigger] s[i];
        ('0' <= c && c <= '9') || ('a' <= c && c <= 'f')
    }
}

/// The value found for `key` in `values_map`, going through `keys_map` from the
/// lower-cased key to the key as it was given; empty where there is none.
pub fn get_map_value(keys_map: &StrMap<String>, values_map: &StrMap<String>, key: &str) -> (r: String)
    ensures
        r@ == lookup_value(texts(keys_map@), texts(values_map@), key@),
        is_ascii_chars(key@) ==> r@ == lookup_lower(texts(keys_map@), texts(values_map@), ascii_lower(key@)),
{
    let lower_key = to_lowercase(key);
    match keys_map.get(lower_key.as_str()) {
        Some(k) => match values_map.get(k.as_str()) {
            Some(val) => val.clone(),
            None => String::new(),
        },
        None => String::new(),
    }
}

/// The parameters of an API request.
#[derive(Debug)]
pub struct Parameter {
    pub method: String,
    pub timestamp: String,
    pub app_id: String,
    pub sign: String,
    pub version: String,
    pub properties: Option<StrMap<String>>,
    pub origin: StrMap<String>,
    pub keys: StrMap<String>,
}

impl Parameter {
    /// The value given for each key, keys as they were written.
    pub closed spec fn origin_view(self) -> Map<Seq<char>, Seq<char>> {
        texts(self.origin@)
    }

    /// For each lower-cased key, the key as it was written.
    pub closed spec fn keys_view(self) -> Map<Seq<char>, Seq<char>> {
        texts(self.keys@)
    }

    /// The (lower-cased key, key as written) pairs of `keys_view`, in increasing order
    /// of the lower-cased key.
    pub closed spec fn key_order(self) -> Seq<(Seq<char>, Seq<char>)> {
        text_pairs(self.keys.pairs())
    }

    /// `key_order` lists `keys_view` in increasing key order, and every key it
    /// leads to has a value.
    pub open spec fn wf(self) -> bool {
        &&& keys_sorted(self.key_order())
        &&& map_of_pairs(self.key_order()) == self.keys_view()
        &&& forall|k: Seq<char>| #[trigger] self.keys_view().dom().contains(k)
            ==> self.origin_view().dom().contains(self.keys_view()[k]) && lowercase(self.keys_view()[k]) == k
    }

    /// Reads the parameters of a form `k1=v1&k2=v2&...`. A later pair overrides an
    /// earlier one with the same key; keys are looked up regardless of case.
    pub fn new(form_str: &str) -> (r: Self)
        requires
            form_well_formed(form_str@),
        ensures
            r.wf(),
            r.origin_view() == values_of_pairs(form_pairs(form_str@)),
            r.keys_view() == lower_keys_of_pairs(form_pairs(form_str@)),
            forall|i: int| 0 <= i < form_pairs(form_str@).len() && is_ascii_chars(#[trigger] form_pairs(form_str@)[i].0)
                ==> lowercase(form_pairs(form_str@)[i].0) == ascii_lower(form_pairs(form_str@)[i].0),
            r.method@ == lookup_lower(r.keys_view(), r.origin_view(), "method"@),
            r.timestamp@ == lookup_lower(r.keys_view(), r.origin_view(), "timestamp"@),
            r.app_id@ == lookup_lower(r.keys_view(), r.origin_view(), "appid"@),
            r.sign@ == lookup_lower(r.keys_view(), r.origin_view(), "sign"@),
            r.version@ == lookup_lower(r.keys_view(), r.origin_view(), "version"@),
            r.properties is Some,
            texts(r.properties->0@) == r.origin_view().remove("method"@).remove("timestamp"@).remove(
                "appid"@,
            ).remove("sign"@).remove("version"@),
    {
        let pieces = split_str(form_str, '&');
        let ghost pairs = form_pairs(form_str@);
        let mut value_maps: StrMap<String> = StrMap::new();
        let mut key_maps: StrMap<String> = StrMap::new();
        let mut ps: StrMap<String> = StrMap::new();
        let mut i: usize = 0;
        assert(pairs.take(0) =~= Seq::<(Seq<char>, Seq<char>)>::empty());
        assert(texts(value_maps@) =~= Map::<Seq<char>, Seq<char>>::empty());
        assert(texts(key_maps@) =~= Map::<Seq<char>, Seq<char>>::empty());
        while i < pieces.len()
            invariant
                i <= pieces@.len(),
                views_of(pieces@) == split_on(form_str@, '&'),
                pairs == form_pairs(form_str@),
                form_well_formed(form_str@),
                texts(value_maps@) == values_of_pairs(pairs.take(i as int)),
                texts(ps@) == values_of_pairs(pairs.take(i as int)),
                texts(key_maps@) == lower_keys_of_pairs(pairs.take(i as int)),
                forall|j: int| 0 <= j < i && is_ascii_chars(#[trigger] pairs[j].0) ==> lowercase(pairs[j].0)
                    == ascii_lower(pairs[j].0),
            decreases pieces@.len() - i,
        {
            let parts = split_str(pieces[i].as_str(), '=');
            assert(split_on(form_str@, '&')[i as int] == pieces@[i as int]@);
            assert(split_on(split_on(form_str@, '&')[i as int], '=').len() >= 2);
            assert(views_of(parts@)[0] == parts@[0]@);
            assert(views_of(parts@)[1] == parts@[1]@);
            let key = parts[0].clone();
            let value = parts[1].clone();
            proof {
                assert(pairs.take(i + 1).drop_last() =~= pairs.take(i as int));
                assert(pairs.take(i + 1).last() == (key@, value@));
            }
            let ghost before_values = value_maps@;
            let ghost before_ps = ps@;
            let ghost before_keys = key_maps@;
            value_maps.insert(key.clone(), value.clone());
            ps.insert(key.clone(), value);
            let lower_key = to_lowercase(key.as_str());
            assert(pairs[i as int].0 == key@);
            let ghost lk = lower_key@;
            let ghost kv = key@;
            key_maps.insert(lower_key, key);
            assert(texts(value_maps@) =~= texts(before_values).insert(kv, pairs.take(i + 1).last().1));
            assert(texts(ps@) =~= texts(before_ps).insert(kv, pairs.take(i + 1).last().1));
            assert(texts(key_maps@) =~= texts(before_keys).insert(lk, kv));
            i = i + 1;
        }
        assert(views_of(pieces@).len() == pieces@.len());
        assert(pairs.take(i as int) =~= pairs);
        ps.remove("method");
        ps.remove("timestamp");
        ps.remove("appid");
        ps.remove("sign");
        ps.remove("version");
        proof {
            reveal_strlit("method");
            reveal_strlit("timestamp");
            reveal_strlit("appid");
            reveal_strlit("sign");
            reveal_strlit("version");
            assert(ascii_lower("method"@) =~= "method"@);
            assert(ascii_lower("timestamp"@) =~= "timestamp"@);
            assert(ascii_lower("appid"@) =~= "appid"@);
            assert(ascii_lower("sign"@) =~= "sign"@);
            assert(ascii_lower("version"@) =~= "version"@);
        }
        let method = get_map_value(&key_maps, &value_maps, "method");
        let timestamp = get_map_value(&key_maps, &value_maps, "timestamp");
        let app_id = get_map_value(&key_maps, &value_maps, "appid");
        let sign = get_map_value(&key_maps, &value_maps, "sign");
        let version = get_map_value(&key_maps, &value_maps, "version");
        proof {
            use_type_invariant(&key_maps);
            lemma_text_pairs(key_maps.pairs());
            lemma_keys_have_values(pairs);
            assert(texts(ps@) =~= texts(value_maps@).remove("method"@).remove("timestamp"@).remove(
                "appid"@,
            ).remove("sign"@).remove("version"@));
        }
        Parameter {
            method,
            timestamp,
            app_id,
            sign,
            version,
            properties: Some(ps),
            origin: value_maps,
            keys: key_maps,
        }
    }

    /// Whether the `sign` parameter equals the signature of the other parameters, taken in
    /// the order of their lower-cased keys, followed by `secret`.
    pub fn verify_sign(&self, secret: &str) -> (r: bool)
        requires
            self.wf(),
        ensures
            r == (signature_of(signing_text(self.key_order(), self.origin_view(), secret@))
                == given_sign(self.key_order(), self.origin_view())),
            is_hex_digest(signature_of(signing_text(self.key_order(), self.origin_view(), secret@))),
            !is_hex_digest(given_sign(self.key_order(), self.origin_view())) ==> !r,
    {
        let mut sign_strs: Vec<String> = Vec::new();
        let mut sign = String::new();
        let sign_key = "sign".to_owned();
        let n = self.keys.len();
        let mut i: usize = 0;
        let ghost order = self.key_order();
        let ghost values = self.origin_view();
        assert(order.take(0) =~= Seq::<(Seq<char>, Seq<char>)>::empty());
        assert(views_of(sign_strs@) =~= Seq::<Seq<char>>::empty());
        while i < n
            invariant
                i <= n,
                n == self.keys.pairs().len(),
                order == self.key_order(),
                values == self.origin_view(),
                self.wf(),
                sign_key@ == "sign"@,
                views_of(sign_strs@) == signed_entries(order.take(i as int), values),
                sign@ == given_sign(order.take(i as int), values),
            decreases n - i,
        {
            let (key, skey) = self.keys.entry(i);
            proof {
                assert(order[i as int] == (key@, skey@));
                lemma_map_of_pairs_index(order, i as int);
                assert(order.take(i + 1).drop_last() =~= order.take(i as int));
                assert(order.take(i + 1).last() == order[i as int]);
            }
            match self.origin.get(skey.as_str()) {
                Some(val) => {
                    if *key == sign_key {
                        sign = val.clone();
                    } else {
                        let ghost before = views_of(sign_strs@);
                        let mut st = skey.clone();
                        st.append("=");
                        st.append(val.as_str());
                        sign_strs.push(st);
                        assert(views_of(sign_strs@) =~= before.push(skey@ + "="@ + values[skey@]));
                    }
                },
                None => {
                    assert(false);
                },
            }
            i = i + 1;
        }
        assert(order.take(i as int) =~= order);
        let mut x_sign = join_strings(&sign_strs, "&");
        x_sign.append("&secret=");
        x_sign.append(secret);
        let digest = md5_compute(x_sign.as_str().as_bytes());
        proof {
            law_lower_hex_shape(digest@);
        }
        let new_sign = to_lower_hex(digest.as_slice());
        new_sign == sign
    }

    /// The value given for `key`, whatever the case of its letters; empty where there is none.
    pub fn get_value(&self, key: &str) -> (r: String)
        ensures
            r@ == lookup_value(self.keys_view(), self.origin_view(), key@),
            is_ascii_chars(key@) ==> r@ == lookup_lower(self.keys_view(), self.origin_view(), ascii_lower(key@)),
    {
        get_map_value(&self.keys, &self.origin, key)
    }
}

/// Looking a key up ignores the case of its letters: two keys that lower-case alike
/// find the same value.
pub proof fn law_lookup_ignores_case(
    keys: Map<Seq<char>, Seq<char>>,
    values: Map<Seq<char>, Seq<char>>,
    k1: Seq<char>,
    k2: Seq<char>,
)
    requires
        lowercase(k1) == lowercase(k2),
    ensures
        lookup_value(keys, values, k1) == lookup_value(keys, values, k2),
{
}

/// A pair `k=v` appended to a form is the one that the form's parameters hold for `k`:
/// it overrides any earlier value of `k`, and looking `k` up finds `v`. The form stays
/// well formed exactly when it was.
pub proof fn law_appended_pair_wins(form: Seq<char>, k: Seq<char>, v: Seq<char>)
    requires
        !k.contains('&'),
        !k.contains('='),
        !v.contains('&'),
        !v.contains('='),
    ensures
        ({
            let longer = form + seq!['&'] + k + seq!['='] + v;
            &&& values_of_pairs(form_pairs(longer)) == values_of_pairs(form_pairs(form)).insert(k, v)
            &&& lower_keys_of_pairs(form_pairs(longer)) == lower_keys_of_pairs(form_pairs(form)).insert(lowercase(k), k)
            &&& lookup_value(lower_keys_of_pairs(form_pairs(longer)), values_of_pairs(form_pairs(longer)), k) == v
            &&& form_well_formed(longer) == form_well_formed(form)
        }),
{
    let piece = k + seq!['='] + v;
    let longer = form + seq!['&'] + k + seq!['='] + v;
    assert(longer =~= form + seq!['&'] + piece);
    assert(!piece.contains('&')) by {
        if piece.contains('&') {
            let i = choose|i: int| 0 <= i < piece.len() && piece[i] == '&';
            if i < k.len() {
                assert(k[i] == '&');
            } else if i > k.len() {
                assert(v[i - k.len() - 1] == '&');
            }
        }
    }
    lemma_split_on_append(form, piece, '&');
    lemma_split_on_append(k, v, '=');
    lemma_split_on_without_sep(k, '=');
    assert(split_on(piece, '=') =~= seq![k, v]);
    let pairs = form_pairs(form);
    let pairs2 = form_pairs(longer);
    assert(pairs2 =~= pairs.push((k, v)));
    assert(pairs2.drop_last() =~= pairs);
    let pieces = split_on(form, '&');
    let pieces2 = split_on(longer, '&');
    assert(pieces2 == pieces.push(piece));
    if form_well_formed(form) {
        assert forall|i: int| 0 <= i < pieces2.len() implies #[trigger] split_on(pieces2[i], '=').len() >= 2 by {
            if i < pieces.len() {
                assert(pieces2[i] == pieces[i]);
            }
        }
    }
    if form_well_formed(longer) {
        assert forall|i: int| 0 <= i < pieces.len() implies #[trigger] split_on(pieces[i], '=').len() >= 2 by {
            assert(pieces2[i] == pieces[i]);
        }
    }
}

/// What is signed leaves out the value of the `sign` parameter, in any given order of
/// lower-cased keys whose entries lower-case to their keys.
proof fn lemma_signed_entries_ignore_sign(
    order: Seq<(Seq<char>, Seq<char>)>,
    values: Map<Seq<char>, Seq<char>>,
    sk: Seq<char>,
    v: Seq<char>,
)
    requires
        forall|i: int| 0 <= i < order.len() ==> lowercase(#[trigger] order[i].1) == order[i].0,
        forall|i: int| 0 <= i < order.len() && #[trigger] order[i].0 == "sign"@ ==> order[i].1 == sk,
        lowercase(sk) == "sign"@,
    ensures
        signed_entries(order, values.insert(sk, v)) == signed_entries(order, values),
        given_sign(order, values.insert(sk, v)) == (if has_sign(order) { v } else { Seq::<char>::empty() }),
    decreases order.len(),
{
    if order.len() > 0 {
        let prev = order.drop_last();
        assert forall|i: int| 0 <= i < prev.len() implies lowercase(#[trigger] prev[i].1) == prev[i].0 by {
            assert(prev[i] == order[i]);
        }
        assert forall|i: int| 0 <= i < prev.len() && #[trigger] prev[i].0 == "sign"@ implies prev[i].1 == sk by {
            assert(prev[i] == order[i]);
        }
        lemma_signed_entries_ignore_sign(prev, values, sk, v);
        assert(lowercase(order[order.len() - 1].1) == order[order.len() - 1].0);
    }
}

/// Whether some entry of `order` has the lower-cased key `sign`.
pub open spec fn has_sign(order: Seq<(Seq<char>, Seq<char>)>) -> bool
    decreases order.len(),
{
    if order.len() == 0 {
        false
    } else {
        order.last().0 == "sign"@ || has_sign(order.drop_last())
    }
}

/// The value of the last pair whose key lower-cases to `lower`; empty if there is none.
pub open spec fn last_value_for(ps: Seq<(Seq<char>, Seq<char>)>, lower: Seq<char>) -> Seq<char>
    decreases ps.len(),
{
    if ps.len() == 0 {
        Seq::<char>::empty()
    } else if lowercase(ps.last().0) == lower {
        ps.last().1
    } else {
        last_value_for(ps.drop_last(), lower)
    }
}

/// Looking up a lower-cased key finds the value of the last pair whose key lower-cases
/// to it, and the empty text if no key does.
pub proof fn law_lookup_last_pair(ps: Seq<(Seq<char>, Seq<char>)>, lower: Seq<char>)
    ensures
        lookup_lower(lower_keys_of_pairs(ps), values_of_pairs(ps), lower) == last_value_for(ps, lower),
    decreases ps.len(),
{
    if ps.len() > 0 {
        let prev = ps.drop_last();
        law_lookup_last_pair(prev, lower);
        lemma_keys_have_values(prev);
    }
}

/// Whether the keys of `ps` lower-case to pairwise different texts.
pub open spec fn distinct_lower_keys(ps: Seq<(Seq<char>, Seq<char>)>) -> bool {
    forall|i: int, j: int| 0 <= i < j < ps.len() ==> lowercase(#[trigger] ps[i].0) != lowercase(#[trigger] ps[j].0)
}

/// Whether some pair of `ps` has the key `k`.
pub open spec fn has_pair_key(ps: Seq<(Seq<char>, Seq<char>)>, k: Seq<char>) -> bool {
    exists|i: int| 0 <= i < ps.len() && #[trigger] ps[i].0 == k
}

/// Whether some pair of `ps` has a key that lower-cases to `lower`.
pub open spec fn has_pair_lower_key(ps: Seq<(Seq<char>, Seq<char>)>, lower: Seq<char>) -> bool {
    exists|i: int| 0 <= i < ps.len() && lowercase(#[trigger] ps[i].0) == lower
}

/// With keys that lower-case apart, each pair stands in both maps as it is.
proof fn lemma_distinct_pairs(ps: Seq<(Seq<char>, Seq<char>)>)
    requires
        distinct_lower_keys(ps),
    ensures
        forall|k: Seq<char>| #[trigger] values_of_pairs(ps).dom().contains(k) <==> has_pair_key(ps, k),
        forall|k: Seq<char>| #[trigger] lower_keys_of_pairs(ps).dom().contains(k) <==> has_pair_lower_key(ps, k),
        forall|i: int| 0 <= i < ps.len() ==> values_of_pairs(ps)[#[trigger] ps[i].0] == ps[i].1,
        forall|i: int| 0 <= i < ps.len() ==> lower_keys_of_pairs(ps)[lowercase(#[trigger] ps[i].0)] == ps[i].0,
    decreases ps.len(),
{
    if ps.len() > 0 {
        let prev = ps.drop_last();
        let n = ps.len() - 1;
        assert(distinct_lower_keys(prev)) by {
            assert forall|i: int, j: int| 0 <= i < j < prev.len() implies lowercase(#[trigger] prev[i].0)
                != lowercase(#[trigger] prev[j].0) by {
                assert(prev[i] == ps[i] && prev[j] == ps[j]);
            }
        }
        lemma_distinct_pairs(prev);
        assert forall|k: Seq<char>| #[trigger] values_of_pairs(ps).dom().contains(k) <==> has_pair_key(ps, k) by {
            assert(values_of_pairs(ps) == values_of_pairs(prev).insert(ps.last().0, ps.last().1));
            assert(values_of_pairs(prev).dom().contains(k) <==> has_pair_key(prev, k));
            if has_pair_key(prev, k) {
                let i = choose|i: int| 0 <= i < prev.len() && #[trigger] prev[i].0 == k;
                assert(ps[i].0 == k);
            }
            if has_pair_key(ps, k) {
                let i = choose|i: int| 0 <= i < ps.len() && #[trigger] ps[i].0 == k;
                if i < n {
                    assert(prev[i].0 == k);
                }
            }
            if k == ps.last().0 {
                assert(ps[n].0 == k);
            }
        }
        assert forall|k: Seq<char>| #[trigger] lower_keys_of_pairs(ps).dom().contains(k) <==> has_pair_lower_key(ps, k) by {
            assert(lower_keys_of_pairs(ps) == lower_keys_of_pairs(prev).insert(lowercase(ps.last().0), ps.last().0));
            assert(lower_keys_of_pairs(prev).dom().contains(k) <==> has_pair_lower_key(prev, k));
            if has_pair_lower_key(prev, k) {
                let i = choose|i: int| 0 <= i < prev.len() && lowercase(#[trigger] prev[i].0) == k;
                assert(ps[i].0 == prev[i].0);
            }
            if has_pair_lower_key(ps, k) {
                let i = choose|i: int| 0 <= i < ps.len() && lowercase(#[trigger] ps[i].0) == k;
                if i < n {
                    assert(prev[i].0 == ps[i].0);
                }
            }
            if k == lowercase(ps.last().0) {
                assert(lowercase(ps[n].0) == k);
            }
        }
        assert forall|i: int| 0 <= i < ps.len() implies values_of_pairs(ps)[#[trigger] ps[i].0] == ps[i].1
            && lower_keys_of_pairs(ps)[lowercase(ps[i].0)] == ps[i].0 by {
            if i < n {
                assert(prev[i] == ps[i]);
                assert(lowercase(ps[i].0) != lowercase(ps[n].0));
            }
        }
    }
}

/// The same pairs in another order, with keys that lower-case apart, give the same
/// values and the same lower-cased keys.
pub proof fn law_reordered_pairs(ps1: Seq<(Seq<char>, Seq<char>)>, ps2: Seq<(Seq<char>, Seq<char>)>)
    requires
        ps1.to_multiset() == ps2.to_multiset(),
        distinct_lower_keys(ps1),
        distinct_lower_keys(ps2),
    ensures
        values_of_pairs(ps1) == values_of_pairs(ps2),
        lower_keys_of_pairs(ps1) == lower_keys_of_pairs(ps2),
{
    broadcast use vstd::seq_lib::group_to_multiset_ensures;

    lemma_distinct_pairs(ps1);
    lemma_distinct_pairs(ps2);
    assert forall|i: int| 0 <= i < ps1.len() implies #[trigger] ps2.contains(ps1[i]) by {
        assert(ps1.contains(ps1[i]));
        assert(ps1.to_multiset().count(ps1[i]) > 0);
        assert(ps2.to_multiset().count(ps1[i]) > 0);
    }
    assert forall|i: int| 0 <= i < ps2.len() implies #[trigger] ps1.contains(ps2[i]) by {
        assert(ps2.contains(ps2[i]));
        assert(ps2.to_multiset().count(ps2[i]) > 0);
        assert(ps1.to_multiset().count(ps2[i]) > 0);
    }
    assert forall|k: Seq<char>| has_pair_key(ps1, k) <==> has_pair_key(ps2, k) by {
        if has_pair_key(ps1, k) {
            let i = choose|i: int| 0 <= i < ps1.len() && #[trigger] ps1[i].0 == k;
            assert(ps2.contains(ps1[i]));
            let j = choose|j: int| 0 <= j < ps2.len() && ps2[j] == ps1[i];
            assert(ps2[j].0 == k);
        }
        if has_pair_key(ps2, k) {
            let i = choose|i: int| 0 <= i < ps2.len() && #[trigger] ps2[i].0 == k;
            assert(ps1.contains(ps2[i]));
            let j = choose|j: int| 0 <= j < ps1.len() && ps1[j] == ps2[i];
            assert(ps1[j].0 == k);
        }
    }
    assert forall|k: Seq<char>| has_pair_lower_key(ps1, k) <==> has_pair_lower_key(ps2, k) by {
        if has_pair_lower_key(ps1, k) {
            let i = choose|i: int| 0 <= i < ps1.len() && lowercase(#[trigger] ps1[i].0) == k;
            assert(ps2.contains(ps1[i]));
            let j = choose|j: int| 0 <= j < ps2.len() && ps2[j] == ps1[i];
            assert(lowercase(ps2[j].0) == k);
        }
        if has_pair_lower_key(ps2, k) {
            let i = choose|i: int| 0 <= i < ps2.len() && lowercase(#[trigger] ps2[i].0) == k;
            assert(ps1.contains(ps2[i]));
            let j = choose|j: int| 0 <= j < ps1.len() && ps1[j] == ps2[i];
            assert(lowercase(ps1[j].0) == k);
        }
    }
    assert forall|k: Seq<char>| #[trigger] values_of_pairs(ps1).dom().contains(k) implies values_of_pairs(ps1)[k]
        == values_of_pairs(ps2)[k] by {
        let i = choose|i: int| 0 <= i < ps1.len() && #[trigger] ps1[i].0 == k;
        assert(ps2.contains(ps1[i]));
        let j = choose|j: int| 0 <= j < ps2.len() && ps2[j] == ps1[i];
        assert(values_of_pairs(ps2)[ps2[j].0] == ps2[j].1);
    }
    assert forall|k: Seq<char>| #[trigger] lower_keys_of_pairs(ps1).dom().contains(k) implies lower_keys_of_pairs(ps1)[k]
        == lower_keys_of_pairs(ps2)[k] by {
        let i = choose|i: int| 0 <= i < ps1.len() && lowercase(#[trigger] ps1[i].0) == k;
        assert(ps2.contains(ps1[i]));
        let j = choose|j: int| 0 <= j < ps2.len() && ps2[j] == ps1[i];
        assert(lower_keys_of_pairs(ps2)[lowercase(ps2[j].0)] == ps2[j].0);
    }
    assert(values_of_pairs(ps1) =~= values_of_pairs(ps2));
    assert(lower_keys_of_pairs(ps1) =~= lower_keys_of_pairs(ps2));
}

/// Parameters with the same keys and values are signed alike: the signed text and the
/// sign that is compared do not depend on the order in which the pairs were sent.
pub proof fn law_same_parameters_same_signature(p1: Parameter, p2: Parameter, secret: Seq<char>)
    requires
        p1.wf(),
        p2.wf(),
        p1.keys_view() == p2.keys_view(),
        p1.origin_view() == p2.origin_view(),
    ensures
        signing_text(p1.key_order(), p1.origin_view(), secret) == signing_text(p2.key_order(), p2.origin_view(), secret),
        given_sign(p1.key_order(), p1.origin_view()) == given_sign(p2.key_order(), p2.origin_view()),
{
    lemma_sorted_listing_unique(p1.key_order(), p2.key_order());
}

/// Looking up an ASCII key finds the same value whatever the ASCII case of its letters.
pub proof fn law_lookup_ascii_case(keys: Map<Seq<char>, Seq<char>>, values: Map<Seq<char>, Seq<char>>, key: Seq<char>)
    requires
        is_ascii_chars(key),
    ensures
        is_ascii_chars(ascii_upper(key)),
        is_ascii_chars(ascii_lower(key)),
        lookup_lower(keys, values, ascii_lower(ascii_upper(key))) == lookup_lower(keys, values, ascii_lower(key)),
        lookup_lower(keys, values, ascii_lower(ascii_lower(key))) == lookup_lower(keys, values, ascii_lower(key)),
{
    law_ascii_case(key);
}

/// In a list sorted by key, `given_sign` is the value of the key listed for `sign`, and
/// empty where `sign` is not listed.
proof fn lemma_given_sign_sorted(order: Seq<(Seq<char>, Seq<char>)>, values: Map<Seq<char>, Seq<char>>)
    requires
        keys_sorted(order),
    ensures
        given_sign(order, values) == (if map_of_pairs(order).dom().contains("sign"@) {
            values[map_of_pairs(order)["sign"@]]
        } else {
            Seq::<char>::empty()
        }),
    decreases order.len(),
{
    if order.len() > 0 {
        let prev = order.drop_last();
        let n = order.len() - 1;
        assert(keys_sorted(prev)) by {
            assert forall|a: int, b: int| 0 <= a < b < prev.len() implies crate::text::seq_lt(#[trigger] prev[a].0, #[trigger] prev[b].0) by {
                assert(prev[a] == order[a] && prev[b] == order[b]);
            }
        }
        lemma_given_sign_sorted(prev, values);
        lemma_map_of_pairs_index(order, n);
        if order.last().0 != "sign"@ {
            if map_of_pairs(order).dom().contains("sign"@) {
                let j = choose|j: int| 0 <= j < order.len() && #[trigger] order[j].0 == "sign"@;
                assert(j < n);
                assert(prev[j] == order[j]);
                lemma_map_of_pairs_index(prev, j);
                lemma_map_of_pairs_index(order, j);
            }
            if map_of_pairs(prev).dom().contains("sign"@) {
                let j = choose|j: int| 0 <= j < prev.len() && #[trigger] prev[j].0 == "sign"@;
                assert(order[j].0 == "sign"@);
            }
        }
    }
}

/// The sign that the check compares is the `sign` parameter: the value found for the
/// lower-cased key `sign`, and empty where there is none.
pub proof fn law_given_sign_is_sign_parameter(p: Parameter)
    requires
        p.wf(),
    ensures
        given_sign(p.key_order(), p.origin_view()) == lookup_lower(p.keys_view(), p.origin_view(), "sign"@),
{
    lemma_given_sign_sorted(p.key_order(), p.origin_view());
}

/// The value of the `sign` parameter is not signed: setting it to anything leaves the
/// signed text as it was, and it is then the signature that the check compares with.
pub proof fn law_sign_is_not_signed(p: Parameter, v: Seq<char>, secret: Seq<char>)
    requires
        p.wf(),
        p.keys_view().dom().contains("sign"@),
    ensures
        ({
            let values = p.origin_view().insert(p.keys_view()["sign"@], v);
            &&& signing_text(p.key_order(), values, secret) == signing_text(p.key_order(), p.origin_view(), secret)
            &&& given_sign(p.key_order(), values) == v
        }),
{
    let order = p.key_order();
    assert forall|i: int| 0 <= i < order.len() implies lowercase(#[trigger] order[i].1) == order[i].0 by {
        lemma_map_of_pairs_index(order, i);
    }
    assert forall|i: int| 0 <= i < order.len() && #[trigger] order[i].0 == "sign"@ implies order[i].1
        == p.keys_view()["sign"@] by {
        lemma_map_of_pairs_index(order, i);
    }
    lemma_signed_entries_ignore_sign(order, p.origin_view(), p.keys_view()["sign"@], v);
    lemma_has_sign(order);
}

/// `has_sign` holds exactly when `sign` is a key of the listed map.
proof fn lemma_has_sign(order: Seq<(Seq<char>, Seq<char>)>)
    requires
        keys_sorted(order),
    ensures
        has_sign(order) <==> map_of_pairs(order).dom().contains("sign"@),
    decreases order.len(),
{
    if order.len() > 0 {
        let prev = order.drop_last();
        assert(keys_sorted(prev)) by {
            assert forall|a: int, b: int| 0 <= a < b < prev.len() implies crate::text::seq_lt(#[trigger] prev[a].0, #[trigger] prev[b].0) by {
                assert(prev[a] == order[a] && prev[b] == order[b]);
            }
        }
        lemma_has_sign(prev);
        if map_of_pairs(order).dom().contains("sign"@) {
            let j = choose|j: int| 0 <= j < order.len() && #[trigger] order[j].0 == "sign"@;
            if j < order.len() - 1 {
                assert(prev[j].0 == "sign"@);
            }
        }
        if map_of_pairs(prev).dom().contains("sign"@) {
            let j = choose|j: int| 0 <= j < prev.len() && #[trigger] prev[j].0 == "sign"@;
            assert(order[j].0 == "sign"@);
        }
    }
}

/// The order in which parameters are signed depends only on their keys, not on the
/// order in which they were sent.
pub proof fn law_key_order_canonical(p1: Parameter, p2: Parameter)
    requires
        p1.wf(),
        p2.wf(),
        p1.keys_view() == p2.keys_view(),
    ensures
        p1.key_order() == p2.key_order(),
{
    lemma_sorted_listing_unique(p1.key_order(), p2.key_order());
}

} // verus!
