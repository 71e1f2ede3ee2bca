//! The images of a document that need work in the background: HTTPS URLs to
//! fetch, `data:` URLs to decode and local files to read.

use vstd::prelude::*;
use vstd::string::*;
use vstd::utf8::*;

use crate::bytes;
use crate::bytes::{comes_before, same_bytes};
use crate::caseless;
use crate::image_source;
use crate::image_source::{is_data_url, is_https_url, resolve_image_source, ResolvedImage};
use crate::path;
use crate::path::{is_absolute, local_path, place_paths, Place};
use crate::text;
use crate::tree::{Block, BlockKind, HtmlImage, Inline, RichTree};

verus! {

/// The texts of `list`.
pub open spec fn texts(list: Seq<String>) -> Seq<Seq<char>> {
    list.map_values(|s: String| s@)
}

/// Images that need one kind of work.
#[derive(Debug, Clone, Copy, PartialEq, Eq, Structural)]
pub enum Wanted {
    /// HTTPS URLs of Markdown images, without the space around them.
    Remote,
    /// `data:` URLs, without the space around them.
    Data,
    /// Paths of local files, in the directory of the document.
    Local,
}

impl Wanted {
    /// HTML images count.
    pub open spec fn html(self) -> bool {
        self != Wanted::Remote
    }

    /// What stands for `url` in the list of a document of the directory `base`.
    pub open spec fn pick(self, base: Option<Seq<char>>, url: Seq<char>) -> Option<Seq<char>> {
        match self {
            Wanted::Remote => if image_source::names_https(url) {
                Some(text::trimmed(url))
            } else {
                None
            },
            Wanted::Data => if image_source::names_data(url) {
                Some(text::trimmed(url))
            } else {
                None
            },
            Wanted::Local => match image_source::resolution(url) {
                image_source::ResolvedView::Local(local) => Some(
                    path::located(base, local, path::rooted(local)),
                ),
                _ => None,
            },
        }
    }

    /// `a` and `b` are one entry: paths with the same components, and URLs with
    /// the same text.
    pub open spec fn same(self, a: Seq<char>, b: Seq<char>) -> bool {
        if self == Wanted::Local {
            path::components(a) == path::components(b)
        } else {
            a == b
        }
    }

    /// `a` comes before `b`: paths by their components, URLs by their bytes.
    pub open spec fn before(self, a: Seq<char>, b: Seq<char>) -> bool {
        if self == Wanted::Local {
            path::ahead(path::components(a), path::components(b))
        } else {
            bytes::precedes(encode_utf8(a), encode_utf8(b))
        }
    }

    /// `list` is strictly increasing.
    pub open spec fn increasing(self, list: Seq<Seq<char>>) -> bool {
        forall|i: int, j: int| 0 <= i < j < list.len() ==> self.before(list[i], list[j])
    }

    /// The increasing `list` with `t`, unless it holds that entry.
    pub open spec fn with(self, list: Seq<Seq<char>>, t: Seq<char>) -> Seq<Seq<char>>
        decreases list.len(),
    {
        if list.len() == 0 {
            seq![t]
        } else if self.same(list.last(), t) {
            list
        } else if self.before(list.last(), t) {
            list.push(t)
        } else {
            self.with(list.drop_last(), t).push(list.last())
        }
    }

    /// The increasing list of what is picked from `urls`.
    pub open spec fn listed(self, base: Option<Seq<char>>, urls: Seq<Seq<char>>) -> Seq<Seq<char>>
        decreases urls.len(),
    {
        if urls.len() == 0 {
            Seq::empty()
        } else {
            let rest = self.listed(base, urls.drop_last());
            match self.pick(base, urls.last()) {
                Some(t) => self.with(rest, t),
                None => rest,
            }
        }
    }
}

proof fn lemma_order(wanted: Wanted, a: Seq<char>, b: Seq<char>)
    ensures
        wanted.same(a, b) || wanted.before(a, b) || wanted.before(b, a),
        !(wanted.before(a, b) && wanted.before(b, a)),
        wanted.same(a, b) ==> !wanted.before(a, b),
{
    if wanted == Wanted::Local {
        path::path_order_is_total(path::components(a), path::components(b));
    } else {
        bytes::lemma_order_total(encode_utf8(a), encode_utf8(b));
        if encode_utf8(a) == encode_utf8(b) {
            text::lemma_encode_injective(a, b);
        }
    }
}

proof fn lemma_chain(wanted: Wanted, a: Seq<char>, b: Seq<char>, c: Seq<char>)
    requires
        wanted.before(a, b),
        wanted.before(b, c),
    ensures
        wanted.before(a, c),
{
    if wanted == Wanted::Local {
        path::path_order_is_transitive(
            path::components(a),
            path::components(b),
            path::components(c),
        );
    } else {
        bytes::lemma_order_transitive(encode_utf8(a), encode_utf8(b), encode_utf8(c));
    }
}

/// Inserting keeps a list strictly increasing. It keeps every entry, adds none
/// but `t`, and `t` is added unless the list holds that entry.
proof fn lemma_with(wanted: Wanted, list: Seq<Seq<char>>, t: Seq<char>)
    requires
        wanted.increasing(list),
    ensures
        wanted.increasing(wanted.with(list, t)),
        forall|x: Seq<char>| #[trigger] list.contains(x) ==> wanted.with(list, t).contains(x),
        forall|x: Seq<char>| #[trigger]
            wanted.with(list, t).contains(x) ==> list.contains(x) || (x == t && forall|y: Seq<char>|
                #[trigger]
                list.contains(y) ==> !wanted.same(y, t)),
        exists|x: Seq<char>| #[trigger] wanted.with(list, t).contains(x) && wanted.same(x, t),
    decreases list.len(),
{
    let out = wanted.with(list, t);
    let n = list.len() as int;
    if n == 0 {
        assert(out[0] == t);
        assert(out.contains(t));
    } else if wanted.same(list.last(), t) {
        assert(list[n - 1] == list.last());
        assert(out.contains(list.last()));
    } else if wanted.before(list.last(), t) {
        assert forall|x: Seq<char>| #[trigger] list.contains(x) implies out.contains(x)
            && !wanted.same(x, t) by {
            let k = choose|k: int| 0 <= k < n && list[k] == x;
            assert(out[k] == x);
            if k < n - 1 {
                assert(wanted.before(list[k], list[n - 1]));
                lemma_chain(wanted, list[k], list[n - 1], t);
            }
            lemma_order(wanted, x, t);
        }
        assert forall|x: Seq<char>| #[trigger] out.contains(x) implies list.contains(x) || x
            == t by {
            let k = choose|k: int| 0 <= k < out.len() && out[k] == x;
            if k < n {
                assert(list[k] == x);
            }
        }
        assert(out[n] == t);
        assert(out.contains(t) && wanted.same(t, t));
        assert forall|i: int, j: int| 0 <= i < j < out.len() implies wanted.before(
            out[i],
            out[j],
        ) by {
            if j == n && i < n - 1 {
                assert(wanted.before(list[i], list[n - 1]));
                lemma_chain(wanted, list[i], list[n - 1], t);
            }
        }
    } else {
        let front = list.drop_last();
        let last = list.last();
        let u = wanted.with(front, t);
        lemma_with(wanted, front, t);
        lemma_order(wanted, last, t);
        assert(wanted.before(t, last));
        assert forall|x: Seq<char>| #[trigger] list.contains(x) implies out.contains(x) by {
            let q = choose|q: int| 0 <= q < n && list[q] == x;
            if q < n - 1 {
                assert(front[q] == x);
                assert(front.contains(x));
                assert(u.contains(x));
                let k = choose|k: int| 0 <= k < u.len() && u[k] == x;
                assert(out[k] == x);
            } else {
                assert(out[u.len() as int] == x);
            }
        }
        assert forall|x: Seq<char>| #[trigger] front.contains(x) implies list.contains(x) by {
            let q = choose|q: int| 0 <= q < front.len() && front[q] == x;
            assert(list[q] == x);
        }
        assert forall|x: Seq<char>| #[trigger] out.contains(x) implies list.contains(x) || (x == t
            && forall|y: Seq<char>| #[trigger] list.contains(y) ==> !wanted.same(y, t)) by {
            let k = choose|k: int| 0 <= k < out.len() && out[k] == x;
            if k < u.len() {
                assert(u[k] == x);
                assert(u.contains(x));
                if !front.contains(x) {
                    assert forall|y: Seq<char>| #[trigger] list.contains(y) implies !wanted.same(
                        y,
                        t,
                    ) by {
                        let q = choose|q: int| 0 <= q < n && list[q] == y;
                        if q < n - 1 {
                            assert(front[q] == y);
                            assert(front.contains(y));
                        }
                    }
                }
            } else {
                assert(list[n - 1] == x);
            }
        }
        let x = choose|x: Seq<char>| #[trigger] u.contains(x) && wanted.same(x, t);
        let k = choose|k: int| 0 <= k < u.len() && u[k] == x;
        assert(out[k] == x);
        assert(out.contains(x) && wanted.same(x, t));
        assert forall|i: int, j: int| 0 <= i < j < out.len() implies wanted.before(
            out[i],
            out[j],
        ) by {
            if j == u.len() {
                assert(u.contains(u[i]));
                if front.contains(u[i]) {
                    let q = choose|q: int| 0 <= q < front.len() && front[q] == u[i];
                    assert(wanted.before(list[q], list[n - 1]));
                }
            }
        }
    }
}

fn place_of(wanted: Wanted, a: &str, b: &str) -> (place: Place)
    ensures
        place == (if wanted.same(a@, b@) {
            Place::Same
        } else if wanted.before(a@, b@) {
            Place::Before
        } else {
            Place::Behind
        }),
{
    if wanted == Wanted::Local {
        place_paths(a, b)
    } else {
        let x = a.as_bytes();
        let y = b.as_bytes();
        if same_bytes(x, y) {
            proof {
                text::lemma_encode_injective(a@, b@);
            }
            Place::Same
        } else if comes_before(x, y) {
            Place::Before
        } else {
            Place::Behind
        }
    }
}

fn insert_unique(wanted: Wanted, list: &mut Vec<String>, t: String)
    ensures
        texts(final(list)@) == wanted.with(texts(old(list)@), t@),
{
    let mut k: usize = list.len();
    let ghost whole = list@;
    assert(whole.take(k as int) =~= whole);
    loop
        invariant
            k <= whole.len(),
            list@ == whole,
            wanted.with(texts(whole), t@) =~= wanted.with(texts(whole.take(k as int)), t@) + texts(
                whole.skip(k as int),
            ),
        ensures
            k <= whole.len(),
            list@ == whole,
            wanted.with(texts(whole), t@) =~= wanted.with(texts(whole.take(k as int)), t@) + texts(
                whole.skip(k as int),
            ),
            k == 0 || (!wanted.same(list@[k - 1]@, t@) && wanted.before(list@[k - 1]@, t@)),
        decreases k,
    {
        if k == 0 {
            break;
        }
        match place_of(wanted, list[k - 1].as_str(), t.as_str()) {
            Place::Same => {
                proof {
                    let front = whole.take(k as int);
                    assert(texts(front).last() == whole[k - 1]@);
                    assert(texts(whole) =~= texts(front) + texts(whole.skip(k as int)));
                }
                return;
            },
            Place::Before => {
                break;
            },
            Place::Behind => {},
        }
        proof {
            let front = whole.take(k as int);
            assert(texts(front).drop_last() =~= texts(whole.take(k - 1)));
            assert(texts(front).last() == whole[k - 1]@);
            assert(texts(whole.skip(k - 1)) =~= seq![whole[k - 1]@] + texts(whole.skip(k as int)));
        }
        k = k - 1;
    }
    proof {
        let front = whole.take(k as int);
        if k > 0 {
            assert(texts(front).last() == whole[k - 1]@);
        }
        assert(wanted.with(texts(front), t@) =~= texts(front).push(t@));
        assert(texts(whole.insert(k as int, t)) =~= texts(front).push(t@) + texts(
            whole.skip(k as int),
        ));
    }
    list.insert(k, t);
}

/// The image that an inline shows, if its destination may need work. HTML
/// images count where `html` holds.
pub open spec fn inline_url(inline: Inline, html: bool) -> Option<Seq<char>> {
    match inline {
        Inline::Image { url, .. } => Some(url@),
        Inline::OpaqueInline { image, .. } => html_url(image, html),
        _ => None,
    }
}

/// The destination of an HTML image, where such images count.
pub open spec fn html_url(image: Option<HtmlImage>, html: bool) -> Option<Seq<char>> {
    match image {
        Some(image) => if html {
            Some(image.url@)
        } else {
            None
        },
        None => None,
    }
}

/// The image that a raw block shows.
pub open spec fn block_url(block: Block, html: bool) -> Option<Seq<char>> {
    match block.kind {
        BlockKind::Opaque { image, .. } => html_url(image, html),
        _ => None,
    }
}

/// `urls`, with one more where there is one.
pub open spec fn pushed(urls: Seq<Seq<char>>, url: Option<Seq<char>>) -> Seq<Seq<char>> {
    match url {
        Some(url) => urls.push(url),
        None => urls,
    }
}

/// Destinations of the images of `inlines`, in order.
pub open spec fn inline_urls(inlines: Seq<Inline>, html: bool) -> Seq<Seq<char>>
    decreases inlines.len(),
{
    if inlines.len() == 0 {
        Seq::empty()
    } else {
        pushed(inline_urls(inlines.drop_last(), html), inline_url(inlines.last(), html))
    }
}

/// Destinations of the images of `blocks` and their children, in order.
pub open spec fn image_urls(blocks: Seq<Block>, html: bool) -> Seq<Seq<char>>
    decreases blocks,
{
    if blocks.len() == 0 {
        Seq::empty()
    } else {
        let b = blocks.last();
        image_urls(blocks.drop_last(), html) + pushed(
            inline_urls(b.inlines@, html),
            block_url(b, html),
        ) + image_urls(b.children@, html)
    }
}

/// The texts behind references.
pub open spec fn ref_texts(list: Seq<&String>) -> Seq<Seq<char>> {
    list.map_values(|s: &String| s@)
}

fn push_html<'a>(image: &'a Option<HtmlImage>, html: bool, out: &mut Vec<&'a String>)
    ensures
        ref_texts(final(out)@) == pushed(ref_texts(old(out)@), html_url(*image, html)),
{
    match image {
        Some(image) => {
            if html {
                out.push(&image.url);
                assert(ref_texts(out@) =~= ref_texts(old(out)@).push(image.url@));
            }
        },
        None => {},
    }
}

fn push_urls<'a>(blocks: &'a Vec<Block>, html: bool, out: &mut Vec<&'a String>)
    ensures
        ref_texts(final(out)@) == ref_texts(old(out)@) + image_urls(blocks@, html),
    decreases blocks,
{
    let ghost start = ref_texts(out@);
    let mut k: usize = 0;
    assert(blocks@.take(0) =~= Seq::<Block>::empty());
    assert(start + Seq::<Seq<char>>::empty() =~= start);
    while k < blocks.len()
        invariant
            k <= blocks.len(),
            ref_texts(out@) == start + image_urls(blocks@.take(k as int), html),
        decreases blocks.len() - k,
    {
        let b = &blocks[k];
        let ghost earlier = ref_texts(out@);
        assert(blocks@.take(k + 1).drop_last() =~= blocks@.take(k as int));
        assert(blocks@.take(k + 1).last() == *b);
        let mut i: usize = 0;
        assert(b.inlines@.take(0) =~= Seq::<Inline>::empty());
        assert(earlier + Seq::<Seq<char>>::empty() =~= earlier);
        while i < b.inlines.len()
            invariant
                i <= b.inlines.len(),
                ref_texts(out@) == earlier + inline_urls(b.inlines@.take(i as int), html),
            decreases b.inlines.len() - i,
        {
            let ghost so_far = inline_urls(b.inlines@.take(i as int), html);
            assert(b.inlines@.take(i + 1).drop_last() =~= b.inlines@.take(i as int));
            match &b.inlines[i] {
                Inline::Image { url, .. } => {
                    out.push(url);
                    assert(ref_texts(out@) =~= (earlier + so_far).push(url@));
                    assert((earlier + so_far).push(url@) =~= earlier + so_far.push(url@));
                },
                Inline::OpaqueInline { image, .. } => {
                    push_html(image, html, out);
                    assert(ref_texts(out@) =~= earlier + pushed(so_far, html_url(*image, html)));
                },
                _ => {},
            }
            i = i + 1;
        }
        assert(b.inlines@.take(i as int) =~= b.inlines@);
        let ghost mine = inline_urls(b.inlines@, html);
        match &b.kind {
            BlockKind::Opaque { image, .. } => {
                push_html(image, html, out);
                assert(ref_texts(out@) =~= earlier + pushed(mine, html_url(*image, html)));
            },
            _ => {},
        }
        push_urls(&b.children, html, out);
        assert(ref_texts(out@) =~= start + image_urls(blocks@.take(k + 1), html));
        k = k + 1;
    }
    assert(blocks@.take(k as int) =~= blocks@);
}

fn picked(wanted: Wanted, base: Option<&str>, url: &str) -> (t: Option<String>)
    ensures
        match t {
            Some(t) => wanted.pick(path::dir_text(base), url@) == Some(t@),
            None => wanted.pick(path::dir_text(base), url@) is None,
        },
{
    match wanted {
        Wanted::Remote => if is_https_url(url) {
            Some(text::own(url.trim()))
        } else {
            None
        },
        Wanted::Data => if is_data_url(url) {
            Some(text::own(url.trim()))
        } else {
            None
        },
        Wanted::Local => match resolve_image_source(url) {
            ResolvedImage::Local(local) => {
                let absolute = is_absolute(local.as_str());
                Some(local_path(base, local.as_str(), absolute))
            },
            _ => None,
        },
    }
}

fn collect(tree: &RichTree, wanted: Wanted, base: Option<&str>) -> (list: Vec<String>)
    ensures
        texts(list@) == wanted.listed(
            path::dir_text(base),
            image_urls(tree.blocks@, wanted.html()),
        ),
{
    let mut urls: Vec<&String> = Vec::new();
    let html = match wanted {
        Wanted::Remote => false,
        _ => true,
    };
    push_urls(&tree.blocks, html, &mut urls);
    let ghost all = ref_texts(urls@);
    let ghost dir = path::dir_text(base);
    assert(all =~= image_urls(tree.blocks@, html));
    let mut list: Vec<String> = Vec::new();
    let mut i: usize = 0;
    assert(all.take(0) =~= Seq::<Seq<char>>::empty());
    assert(texts(list@) =~= Seq::<Seq<char>>::empty());
    while i < urls.len()
        invariant
            i <= urls@.len(),
            all == ref_texts(urls@),
            dir == path::dir_text(base),
            texts(list@) == wanted.listed(dir, all.take(i as int)),
        decreases urls@.len() - i,
    {
        assert(all.take(i + 1).drop_last() =~= all.take(i as int));
        assert(all.take(i + 1).last() == urls@[i as int]@);
        if let Some(t) = picked(wanted, base, urls[i].as_str()) {
            insert_unique(wanted, &mut list, t);
        }
        i = i + 1;
    }
    assert(all.take(i as int) =~= all);
    list
}

/// HTTPS URLs of the Markdown images of a document, each once, in order.
pub fn collect_remote_image_urls(tree: &RichTree) -> (urls: Vec<String>)
    ensures
        texts(urls@) == Wanted::Remote.listed(None, image_urls(tree.blocks@, false)),
{
    collect(tree, Wanted::Remote, None)
}

/// `data:` URLs of the Markdown and HTML images of a document, each once, in
/// order.
pub fn collect_data_image_urls(tree: &RichTree) -> (urls: Vec<String>)
    ensures
        texts(urls@) == Wanted::Data.listed(None, image_urls(tree.blocks@, true)),
{
    collect(tree, Wanted::Data, None)
}

/// Paths of the local Markdown and HTML images of a document of the directory
/// `base`, each once, in the order of their components.
pub fn collect_local_image_paths(tree: &RichTree, base: Option<&str>) -> (paths: Vec<String>)
    ensures
        texts(paths@) == Wanted::Local.listed(
            path::dir_text(base),
            image_urls(tree.blocks@, true),
        ),
{
    collect(tree, Wanted::Local, base)
}

/// A collected list is strictly increasing. What it holds is the first of its
/// kind that is picked from the destinations, and all that is picked stands in
/// it.
pub proof fn collected_exactly(wanted: Wanted, base: Option<Seq<char>>, urls: Seq<Seq<char>>)
    ensures
        wanted.increasing(wanted.listed(base, urls)),
        forall|t: Seq<char>| #[trigger]
            wanted.listed(base, urls).contains(t) ==> exists|i: int|
                #![trigger urls[i]]
                first_pick(wanted, base, urls, i, t),
        forall|i: int|
            0 <= i < urls.len() ==> (#[trigger] wanted.pick(base, urls[i]) matches Some(t)
                ==> exists|x: Seq<char>| #[trigger]
                wanted.listed(base, urls).contains(x) && wanted.same(x, t)),
    decreases urls.len(),
{
    let out = wanted.listed(base, urls);
    if urls.len() > 0 {
        let front = urls.drop_last();
        let rest = wanted.listed(base, front);
        let n = front.len() as int;
        collected_exactly(wanted, base, front);
        if let Some(t) = wanted.pick(base, urls.last()) {
            lemma_with(wanted, rest, t);
        }
        assert forall|t: Seq<char>| #[trigger] out.contains(t) implies exists|i: int|
            #![trigger urls[i]]
            first_pick(wanted, base, urls, i, t) by {
            if rest.contains(t) {
                let i = choose|i: int| #![trigger front[i]] first_pick(wanted, base, front, i, t);
                assert(urls[i] == front[i]);
                assert forall|j: int| 0 <= j < i implies (#[trigger] wanted.pick(
                    base,
                    urls[j],
                ) matches Some(u) ==> !wanted.same(u, t)) by {
                    assert(wanted.pick(base, front[j]) == wanted.pick(base, urls[j]));
                }
                assert(first_pick(wanted, base, urls, i, t));
            } else {
                assert(wanted.pick(base, urls[n]) == Some(t));
                assert forall|j: int| 0 <= j < n implies (#[trigger] wanted.pick(
                    base,
                    urls[j],
                ) matches Some(u) ==> !wanted.same(u, t)) by {
                    assert(wanted.pick(base, front[j]) == wanted.pick(base, urls[j]));
                    if let Some(u) = wanted.pick(base, urls[j]) {
                        let x = choose|x: Seq<char>| #[trigger]
                            rest.contains(x) && wanted.same(x, u);
                        assert(!wanted.same(x, t));
                    }
                }
                assert(first_pick(wanted, base, urls, n, t));
            }
        }
        assert forall|i: int| 0 <= i < urls.len() implies (#[trigger] wanted.pick(
            base,
            urls[i],
        ) matches Some(t) ==> exists|x: Seq<char>| #[trigger]
            out.contains(x) && wanted.same(x, t)) by {
            if i < n {
                assert(wanted.pick(base, front[i]) == wanted.pick(base, urls[i]));
                if let Some(t) = wanted.pick(base, urls[i]) {
                    let x = choose|x: Seq<char>| #[trigger]
                        rest.contains(x) && wanted.same(x, t);
                    assert(out.contains(x));
                }
            }
        }
    }
}

/// `t` is picked from destination `i`, and nothing of its kind from an earlier
/// one.
pub open spec fn first_pick(
    wanted: Wanted,
    base: Option<Seq<char>>,
    urls: Seq<Seq<char>>,
    i: int,
    t: Seq<char>,
) -> bool {
    &&& 0 <= i < urls.len()
    &&& wanted.pick(base, urls[i]) == Some(t)
    &&& forall|j: int|
        0 <= j < i ==> (#[trigger] wanted.pick(base, urls[j]) matches Some(u) ==> !wanted.same(
            u,
            t,
        ))
}

/// No destination needs two kinds of work.
pub proof fn work_is_disjoint(base: Option<Seq<char>>, url: Seq<char>)
    ensures
        Wanted::Local.pick(base, url) is Some ==> Wanted::Remote.pick(base, url) is None
            && Wanted::Data.pick(base, url) is None,
        Wanted::Data.pick(base, url) is Some ==> Wanted::Remote.pick(base, url) is None,
{
    text::trim_is_idempotent(url);
    if image_source::names_data(url) && image_source::names_https(url) {
        reveal_strlit("https://");
        reveal_strlit("data:");
        is_ascii_chars_encode_utf8("https://"@);
        is_ascii_chars_encode_utf8("data:"@);
        let b = encode_utf8(text::trimmed(url));
        assert(b.take(8)[0] == b[0]);
        assert(b.take(5)[0] == b[0]);
        assert(caseless::lower(b.take(8)[0]) == caseless::lower(encode_utf8("https://"@)[0]));
        assert(caseless::lower(b.take(5)[0]) == caseless::lower(encode_utf8("data:"@)[0]));
    }
}

/// The pictures of a block are found: those of its text, itself if it is one, and
/// those of its children. Pictures in HTML count only where they are asked for.
pub proof fn every_picture_is_found(blocks: Seq<Block>, html: bool, k: int, j: int)
    requires
        0 <= k < blocks.len(),
    ensures
        ({
            let found = image_urls(blocks, html);
            let b = blocks[k];
            &&& 0 <= j < b.inlines@.len() && b.inlines@[j] is Image ==> found.contains(
                b.inlines@[j]->Image_url@,
            )
            &&& html && 0 <= j < b.inlines@.len() && b.inlines@[j] is OpaqueInline
                && b.inlines@[j]->OpaqueInline_image is Some ==> found.contains(
                (b.inlines@[j]->OpaqueInline_image->0).url@,
            )
            &&& html && b.kind is Opaque && b.kind->Opaque_image is Some ==> found.contains(
                (b.kind->Opaque_image->0).url@,
            )
            &&& forall|u: Seq<char>| #[trigger]
                image_urls(b.children@, html).contains(u) ==> found.contains(u)
        }),
    decreases blocks.len(),
{
    let found = image_urls(blocks, html);
    let b = blocks.last();
    let before = image_urls(blocks.drop_last(), html);
    let own = pushed(inline_urls(b.inlines@, html), block_url(b, html));
    let below = image_urls(b.children@, html);
    assert(found == before + own + below);
    if k < blocks.len() - 1 {
        every_picture_is_found(blocks.drop_last(), html, k, j);
        assert(blocks.drop_last()[k] == blocks[k]);
        assert forall|u: Seq<char>| #[trigger] before.contains(u) implies found.contains(u) by {
            let i = choose|i: int| 0 <= i < before.len() && before[i] == u;
            assert(found[i] == u);
        }
    } else {
        assert forall|u: Seq<char>| #[trigger] below.contains(u) implies found.contains(u) by {
            let i = choose|i: int| 0 <= i < below.len() && below[i] == u;
            assert(found[before.len() + own.len() + i] == u);
        }
        assert forall|u: Seq<char>| #[trigger] own.contains(u) implies found.contains(u) by {
            let i = choose|i: int| 0 <= i < own.len() && own[i] == u;
            assert(found[before.len() + i] == u);
        }
        let text = inline_urls(b.inlines@, html);
        assert forall|u: Seq<char>| #[trigger] text.contains(u) implies own.contains(u) by {
            let i = choose|i: int| 0 <= i < text.len() && text[i] == u;
            assert(own[i] == u);
        }
        if 0 <= j < b.inlines@.len() && inline_url(b.inlines@[j], html) is Some {
            lemma_inline_found(b.inlines@, html, j);
            assert(text.contains(inline_url(b.inlines@[j], html)->0));
        }
        if block_url(b, html) is Some {
            assert(own[text.len() as int] == block_url(b, html)->0);
            assert(own.contains(block_url(b, html)->0));
        }
    }
}

proof fn lemma_inline_found(inlines: Seq<Inline>, html: bool, j: int)
    requires
        0 <= j < inlines.len(),
        inline_url(inlines[j], html) is Some,
    ensures
        inline_urls(inlines, html).contains(inline_url(inlines[j], html)->0),
    decreases inlines.len(),
{
    let rest = inline_urls(inlines.drop_last(), html);
    let all = inline_urls(inlines, html);
    let u = inline_url(inlines[j], html)->0;
    if j < inlines.len() - 1 {
        lemma_inline_found(inlines.drop_last(), html, j);
        let i = choose|i: int| 0 <= i < rest.len() && rest[i] == u;
        assert(all[i] == u);
    } else {
        assert(all[rest.len() as int] == u);
    }
}

/// Where there is no picture, none is found; text alone has none.
pub proof fn text_has_no_pictures(inlines: Seq<Inline>, html: bool)
    requires
        forall|j: int|
            0 <= j < inlines.len() ==> !((#[trigger] inlines[j]) is Image) && !(inlines[j]
                is OpaqueInline),
    ensures
        inline_urls(inlines, html).len() == 0,
    decreases inlines.len(),
{
    if inlines.len() > 0 {
        text_has_no_pictures(inlines.drop_last(), html);
        assert(inlines[inlines.len() - 1] == inlines.last());
    }
}

/// What is fetched, decoded and read: `https` URLs and `data:` URLs without
/// their margins, and local paths where they are looked up.
pub proof fn work_goes_by_the_scheme(base: Option<Seq<char>>, url: Seq<char>, local: Seq<char>)
    ensures
        image_source::names_https(url) ==> Wanted::Remote.pick(base, url) == Some(
            text::trimmed(url),
        ),
        !image_source::names_https(url) ==> Wanted::Remote.pick(base, url) is None,
        image_source::names_data(url) ==> Wanted::Data.pick(base, url) == Some(text::trimmed(url)),
        !image_source::names_data(url) ==> Wanted::Data.pick(base, url) is None,
        image_source::resolution(url) == image_source::ResolvedView::Local(local) ==> ({
            let at = Wanted::Local.pick(base, url);
            &&& local.len() > 0 && local[0] == '/' ==> at == Some(local)
            &&& base is None ==> at == Some(local)
            &&& base is Some && !(local.len() > 0 && local[0] == '/') ==> at == Some(
                path::joined(base->0, local),
            )
        }),
        !(image_source::resolution(url) is Local) ==> Wanted::Local.pick(base, url) is None,
{
}

/// URLs are the same where their text is; paths where their parts are.
pub proof fn sameness_of_work(a: Seq<char>, b: Seq<char>)
    ensures
        Wanted::Remote.same(a, b) <==> a == b,
        Wanted::Data.same(a, b) <==> a == b,
        Wanted::Local.same(a, b) <==> path::components(a) == path::components(b),
        Wanted::Remote.before(a, b) <==> bytes::precedes(encode_utf8(a), encode_utf8(b)),
        Wanted::Local.before(a, b) <==> path::ahead(path::components(a), path::components(b)),
        !Wanted::Remote.html() && Wanted::Data.html() && Wanted::Local.html(),
{
}

} // verus!
