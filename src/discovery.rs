use vstd::prelude::*;
use crate::path::{extension, extension_of};

verus! {

/// The most images that the walk of one root collects.
pub const IMAGE_CAP: usize = 500;

/// The MIME type that infer gives to a file whose leading bytes are `head`.
pub uninterp spec fn sniffed_mime(head: Seq<u8>) -> Option<Seq<char>>;

/// Relies on infer::get: the MIME type of the file type that the leading
/// bytes of a file show, if infer recognises one.
#[verifier::external_body]
fn sniff_mime(head: &[u8]) -> (r: Option<String>)
    ensures
        match r {
            Some(m) => sniffed_mime(head@) == Some(m@),
            None => sniffed_mime(head@) is None,
        },
{
    match infer::get(head) {
        Some(kind) => Some(kind.mime_type().to_string()),
        None => None,
    }
}

/// Whether a path ends in one of the extensions "jpg", "jpeg" and "png",
/// matched exactly (case matters).
pub open spec fn has_image_extension(p: Seq<char>) -> bool {
    ||| extension(p) == Some(seq!['j', 'p', 'g'])
    ||| extension(p) == Some(seq!['j', 'p', 'e', 'g'])
    ||| extension(p) == Some(seq!['p', 'n', 'g'])
}

/// Whether a sniffed MIME type is "image/jpeg" or "image/png".
pub open spec fn is_image_mime(m: Option<Seq<char>>) -> bool {
    ||| m == Some(seq!['i', 'm', 'a', 'g', 'e', '/', 'j', 'p', 'e', 'g'])
    ||| m == Some(seq!['i', 'm', 'a', 'g', 'e', '/', 'p', 'n', 'g'])
}

pub open spec fn opt_view(m: Option<String>) -> Option<Seq<char>> {
    match m {
        Some(s) => Some(s@),
        None => None,
    }
}

fn same_chars(a: &Vec<char>, b: &Vec<char>) -> (r: bool)
    ensures
        r == (a@ == b@),
{
    if a.len() != b.len() {
        return false;
    }
    let mut i: usize = 0;
    while i < a.len()
        invariant
            a@.len() == b@.len(),
            i <= a@.len(),
            forall|j: int| 0 <= j < i ==> a@[j] == b@[j],
        decreases a@.len() - i,
    {
        if a[i] != b[i] {
            return false;
        }
        i = i + 1;
    }
    assert(a@ =~= b@);
    true
}

/// Whether the path `p` has one of the image extensions.
pub fn is_image_name(p: &str) -> (r: bool)
    ensures
        r == has_image_extension(p@),
{
    match extension_of(p) {
        Some(e) => {
            same_chars(&e, &vec!['j', 'p', 'g']) || same_chars(&e, &vec!['j', 'p', 'e', 'g'])
                || same_chars(&e, &vec!['p', 'n', 'g'])
        },
        None => false,
    }
}

/// Whether a sniffed MIME type is one of the two image types.
pub fn is_image_type(mime: &Option<String>) -> (r: bool)
    ensures
        r == is_image_mime(opt_view(*mime)),
{
    match mime {
        Some(m) => {
            let c = crate::path::chars_of(m.as_str());
            same_chars(&c, &vec!['i', 'm', 'a', 'g', 'e', '/', 'j', 'p', 'e', 'g'])
                || same_chars(&c, &vec!['i', 'm', 'a', 'g', 'e', '/', 'p', 'n', 'g'])
        },
        None => false,
    }
}

/// Whether a file named `p` whose leading bytes are `head` is an image: its
/// extension is an image extension and infer sniffs an image type.
pub fn is_image(p: &str, head: &Vec<u8>) -> (r: bool)
    ensures
        r == (has_image_extension(p@) && is_image_mime(sniffed_mime(head@))),
{
    if !is_image_name(p) {
        return false;
    }
    let mime = sniff_mime(head.as_slice());
    is_image_type(&mime)
}

/// A directory entry as listed: its full path and whether it is a directory.
#[derive(PartialEq, Eq, Clone, Debug)]
pub struct Entry {
    pub path: String,
    pub is_dir: bool,
}

/// What the walk needs next from the file system.
#[derive(PartialEq, Eq, Clone, Debug)]
pub enum Request {
    /// The entries of this directory (none where it cannot be read).
    List(String),
    /// The leading bytes of this file (none where it cannot be read).
    Sniff(String),
    /// Nothing: the walk is over.
    Done,
}

/// A directory being walked: its entries, the next one to look at, and
/// whether it is the root.
pub struct Frame {
    pub entries: Vec<Entry>,
    pub next: usize,
    pub top: bool,
}

/// A frame as a value: entries, next index, root flag.
pub type FrameView = (Seq<Entry>, int, bool);

impl Frame {
    pub open spec fn view_of(&self) -> FrameView {
        (self.entries@, self.next as int, self.top)
    }
}

pub open spec fn frames_view(fs: Seq<Frame>) -> Seq<FrameView> {
    fs.map_values(|f: Frame| f.view_of())
}

/// The walk from a stack of directories: the entries are taken in order,
/// depth first. A directory entry is listed when it stands in the root or
/// the walk recurses; any other entry with an image extension is sniffed;
/// the rest are passed over. The walk is over once the stack is empty or
/// `count` images have been found. Gives the stack after the next request,
/// and that request.
pub open spec fn settle(fs: Seq<FrameView>, count: nat, recurse: bool) -> (Seq<FrameView>, Request)
    decreases fs.len(), (if fs.len() > 0 { fs.last().0.len() - fs.last().1 } else { 0 }),
{
    if fs.len() == 0 || count >= IMAGE_CAP {
        (Seq::empty(), Request::Done)
    } else if fs.last().1 < 0 || fs.last().1 >= fs.last().0.len() {
        settle(fs.drop_last(), count, recurse)
    } else {
        let f = fs.last();
        let e = f.0[f.1];
        let fs2 = fs.update(fs.len() - 1, (f.0, f.1 + 1, f.2));
        if e.is_dir && (f.2 || recurse) {
            (fs2, Request::List(e.path))
        } else if has_image_extension(e.path@) {
            (fs2, Request::Sniff(e.path))
        } else {
            settle(fs2, count, recurse)
        }
    }
}

/// The walk sniffs only files with an image extension, and only below the
/// cap: a file without one is never taken for an image, whatever it holds.
pub proof fn lemma_settle_sniffs_images(fs: Seq<FrameView>, count: nat, recurse: bool)
    ensures
        settle(fs, count, recurse).1 matches Request::Sniff(p) ==> has_image_extension(p@)
            && count < IMAGE_CAP,
    decreases fs.len(), (if fs.len() > 0 { fs.last().0.len() - fs.last().1 } else { 0 }),
{
    if fs.len() == 0 || count >= IMAGE_CAP {
    } else if fs.last().1 < 0 || fs.last().1 >= fs.last().0.len() {
        lemma_settle_sniffs_images(fs.drop_last(), count, recurse);
    } else {
        let f = fs.last();
        let fs2 = fs.update(fs.len() - 1, (f.0, f.1 + 1, f.2));
        assert(fs2.last() == (f.0, f.1 + 1, f.2));
        lemma_settle_sniffs_images(fs2, count, recurse);
    }
}

/// The stack after a listing: the entries, when there are any, become a
/// new directory on top.
pub open spec fn listed_frames(fs: Seq<FrameView>, entries: Option<Vec<Entry>>, top: bool) -> Seq<
    FrameView,
> {
    match entries {
        Some(es) => fs.push((es@, 0, top)),
        None => fs,
    }
}

/// Whether the leading bytes of a file, when they could be read, sniff as
/// an image type.
pub open spec fn sniffs_image(head: Option<Vec<u8>>) -> bool {
    match head {
        Some(h) => is_image_mime(sniffed_mime(h@)),
        None => false,
    }
}

/// Whether some entry still ahead on the stack has an image extension.
pub open spec fn image_ahead(fs: Seq<FrameView>) -> bool {
    exists|f: int, k: int|
        0 <= f < fs.len() && 0 <= fs[f].1 <= k < fs[f].0.len() && has_image_extension(
            #[trigger] fs[f].0[k].path@,
        )
}

/// The walk ends only at the cap or when no entry with an image extension
/// is left: below the cap, an entry with an image extension still ahead
/// means a next request.
pub proof fn lemma_walk_continues_below_cap(fs: Seq<FrameView>, count: nat, recurse: bool)
    requires
        count < IMAGE_CAP,
        image_ahead(fs),
    ensures
        settle(fs, count, recurse).1 != Request::Done,
    decreases fs.len(), (if fs.len() > 0 { fs.last().0.len() - fs.last().1 } else { 0 }),
{
    let (f, k) = choose|f: int, k: int|
        0 <= f < fs.len() && 0 <= fs[f].1 <= k < fs[f].0.len() && has_image_extension(
            #[trigger] fs[f].0[k].path@,
        );
    let t = fs.last();
    if t.1 < 0 || t.1 >= t.0.len() {
        assert(f != fs.len() - 1);
        let p = fs.drop_last();
        assert(p[f] == fs[f]);
        assert(has_image_extension(p[f].0[k].path@));
        lemma_walk_continues_below_cap(p, count, recurse);
    } else {
        let e = t.0[t.1];
        let fs2 = fs.update(fs.len() - 1, (t.0, t.1 + 1, t.2));
        if !(e.is_dir && (t.2 || recurse)) && !has_image_extension(e.path@) {
            assert(fs2.last() == (t.0, t.1 + 1, t.2));
            if f == fs.len() - 1 {
                assert(k != t.1);
                assert(fs2[f].0[k] == fs[f].0[k]);
            } else {
                assert(fs2[f] == fs[f]);
            }
            assert(has_image_extension(fs2[f].0[k].path@));
            lemma_walk_continues_below_cap(fs2, count, recurse);
        }
    }
}

/// At the cap the walk asks for nothing more.
pub proof fn lemma_walk_stops_at_cap(fs: Seq<FrameView>, count: nat, recurse: bool)
    requires
        count >= IMAGE_CAP,
    ensures
        settle(fs, count, recurse).1 == Request::Done,
{
}

/// The walk of one root for images, driven by its caller: the caller does
/// what `pending` asks and hands the answer to `listed` or `sniffed`.
pub struct Walk {
    pub recurse: bool,
    pub images: Vec<String>,
    pub frames: Vec<Frame>,
    pub pending: Request,
    pub root_listed: bool,
}

impl Walk {
    /// At most the cap of images, each with an image extension; a pending
    /// sniff is of a file with one, asked while the cap is not reached.
    pub open spec fn wf(&self) -> bool {
        &&& self.images@.len() <= IMAGE_CAP
        &&& forall|i: int| 0 <= i < self.images@.len() ==> has_image_extension(#[trigger] self.images@[i]@)
        &&& self.pending matches Request::Sniff(p) ==> has_image_extension(p@) && self.images@.len() < IMAGE_CAP
    }

    /// A walk that starts by listing `root`.
    pub fn new(root: String, recurse: bool) -> (r: Walk)
        ensures
            r.wf(),
            r.pending == Request::List(root),
            r.recurse == recurse,
            r.images@.len() == 0,
            r.frames@.len() == 0,
            !r.root_listed,
    {
        Walk { recurse, images: Vec::new(), frames: Vec::new(), pending: Request::List(root), root_listed: false }
    }

    /// What the walk asks for next.
    pub fn request(&self) -> (r: Request)
        ensures
            r == self.pending,
    {
        self.pending.clone_request()
    }

    /// Takes the entries of the directory that the walk asked to list (none
    /// where it could not be read), and moves on. The first listing is the
    /// root's. An answer that was not asked for changes nothing.
    pub fn listed(&mut self, entries: Option<Vec<Entry>>) -> (r: Request)
        requires
            old(self).wf(),
        ensures
            final(self).wf(),
            final(self).pending == r,
            final(self).images == old(self).images,
            final(self).recurse == old(self).recurse,
            old(self).pending is List ==> {
                &&& (frames_view(final(self).frames@), r) == settle(
                    listed_frames(frames_view(old(self).frames@), entries, !old(self).root_listed),
                    old(self).images@.len(),
                    old(self).recurse,
                )
                &&& final(self).root_listed
            },
            !(old(self).pending is List) ==> *final(self) == *old(self) && r == old(self).pending,
    {
        if !(matches!(self.pending, Request::List(_))) {
            return self.pending.clone_request();
        }
        let top = !self.root_listed;
        self.root_listed = true;
        if let Some(es) = entries {
            let ghost fs = self.frames@;
            let f = Frame { entries: es, next: 0, top };
            self.frames.push(f);
            proof {
                lemma_frames_push(fs, f);
            }
        }
        self.advance()
    }

    /// Takes the leading bytes of the file that the walk asked to sniff
    /// (none where it could not be read): the file is an image where infer
    /// sniffs an image type. Then moves on. An answer that was not asked for
    /// changes nothing.
    pub fn sniffed(&mut self, head: Option<Vec<u8>>) -> (r: Request)
        requires
            old(self).wf(),
        ensures
            final(self).wf(),
            final(self).pending == r,
            final(self).recurse == old(self).recurse,
            final(self).root_listed == old(self).root_listed,
            old(self).pending matches Request::Sniff(p) ==> {
                &&& final(self).images@ == (if sniffs_image(head) {
                    old(self).images@.push(p)
                } else {
                    old(self).images@
                })
                &&& (frames_view(final(self).frames@), r) == settle(
                    frames_view(old(self).frames@),
                    final(self).images@.len(),
                    old(self).recurse,
                )
            },
            !(old(self).pending is Sniff) ==> *final(self) == *old(self) && r == old(self).pending,
    {
        let p = match &self.pending {
            Request::Sniff(p) => p.clone(),
            _ => {
                return self.pending.clone_request();
            },
        };
        let found = match &head {
            Some(h) => is_image(p.as_str(), h),
            None => false,
        };
        self.pending = Request::Done;
        if found {
            let ghost before = self.images@;
            self.images.push(p);
            assert(forall|i: int|
                0 <= i < self.images@.len() ==> has_image_extension(
                    #[trigger] self.images@[i]@,
                )) by {
                assert(forall|i: int| 0 <= i < before.len() ==> self.images@[i] == before[i]);
            }
        }
        self.advance()
    }

    /// Moves on to the next request, from the stack as it stands.
    fn advance(&mut self) -> (r: Request)
        requires
            old(self).wf(),
        ensures
            (frames_view(final(self).frames@), r) == settle(
                frames_view(old(self).frames@),
                old(self).images@.len(),
                old(self).recurse,
            ),
            final(self).pending == r,
            final(self).wf(),
            final(self).images == old(self).images,
            final(self).recurse == old(self).recurse,
            final(self).root_listed == old(self).root_listed,
    {
        proof {
            lemma_settle_sniffs_images(frames_view(self.frames@), self.images@.len(), self.recurse);
        }
        let r = settle_frames(&mut self.frames, self.images.len(), self.recurse);
        self.pending = r.clone_request();
        r
    }
}

impl Request {
    pub fn clone_request(&self) -> (r: Request)
        ensures
            r == *self,
    {
        match self {
            Request::List(p) => Request::List(p.clone()),
            Request::Sniff(p) => Request::Sniff(p.clone()),
            Request::Done => Request::Done,
        }
    }
}

proof fn lemma_frames_pop(fs: Seq<Frame>)
    requires
        fs.len() > 0,
    ensures
        frames_view(fs.drop_last()) == frames_view(fs).drop_last(),
        frames_view(fs).last() == fs.last().view_of(),
        frames_view(fs).len() == fs.len(),
{
    assert(frames_view(fs.drop_last()) =~= frames_view(fs).drop_last());
}

proof fn lemma_frames_push(fs: Seq<Frame>, f: Frame)
    ensures
        frames_view(fs.push(f)) == frames_view(fs).push(f.view_of()),
{
    assert(frames_view(fs.push(f)) =~= frames_view(fs).push(f.view_of()));
}

/// Takes entries off the stack of directories until one needs the file
/// system, or the walk is over.
fn settle_frames(frames: &mut Vec<Frame>, count: usize, recurse: bool) -> (r: Request)
    ensures
        (frames_view(final(frames)@), r) == settle(frames_view(old(frames)@), count as nat, recurse),
{
    loop
        invariant
            settle(frames_view(frames@), count as nat, recurse) == settle(
                frames_view(old(frames)@),
                count as nat,
                recurse,
            ),
        decreases frames@.len(), (if frames@.len() > 0 {
            frames@.last().entries@.len() - frames@.last().next
        } else {
            0
        }),
    {
        let ghost fv = frames_view(frames@);
        if frames.len() == 0 || count >= IMAGE_CAP {
            *frames = Vec::new();
            assert(frames_view(frames@) =~= Seq::<FrameView>::empty());
            return Request::Done;
        }
        let ghost before = frames@;
        proof {
            lemma_frames_pop(before);
        }
        let mut f = match frames.pop() {
            Some(f) => f,
            None => {
                return Request::Done;
            },
        };
        assert(frames@ == before.drop_last());
        if f.next >= f.entries.len() {
            continue;
        }
        let idx = f.next;
        let is_dir = f.entries[idx].is_dir;
        let path = f.entries[idx].path.clone();
        let top = f.top;
        f.next = idx + 1;
        let ghost fv2 = f.view_of();
        let ghost mid = frames@;
        frames.push(f);
        proof {
            lemma_frames_push(mid, f);
            assert(frames_view(frames@) =~= fv.update(fv.len() - 1, fv2));
        }
        if is_dir && (top || recurse) {
            return Request::List(path);
        }
        if is_image_name(path.as_str()) {
            return Request::Sniff(path);
        }
    }
}

/// The paths that a list of strings holds.
pub open spec fn views(s: Seq<String>) -> Seq<Seq<char>> {
    s.map_values(|x: String| x@)
}

/// The paths of a list of lists, in order.
pub open spec fn flatten_paths(r: Seq<Vec<String>>) -> Seq<Seq<char>>
    decreases r.len(),
{
    if r.len() == 0 {
        Seq::empty()
    } else {
        flatten_paths(r.drop_last()) + views(r.last()@)
    }
}

/// The paths of `s` in order, each kept at its first occurrence only.
pub open spec fn first_occurrences(s: Seq<Seq<char>>) -> Seq<Seq<char>>
    decreases s.len(),
{
    if s.len() == 0 {
        Seq::empty()
    } else if first_occurrences(s.drop_last()).contains(s.last()) {
        first_occurrences(s.drop_last())
    } else {
        first_occurrences(s.drop_last()).push(s.last())
    }
}

proof fn lemma_first_occurrences(s: Seq<Seq<char>>)
    ensures
        forall|i: int, j: int|
            0 <= i < j < first_occurrences(s).len() ==> first_occurrences(s)[i] != first_occurrences(
                s,
            )[j],
        forall|x: Seq<char>| #[trigger] s.contains(x) <==> first_occurrences(s).contains(x),
    decreases s.len(),
{
    if s.len() > 0 {
        let p = s.drop_last();
        lemma_first_occurrences(p);
        let d = first_occurrences(p);
        assert forall|x: Seq<char>| #[trigger] s.contains(x) <==> first_occurrences(s).contains(x) by {
            assert(p.contains(x) <==> d.contains(x));
            if s.contains(x) {
                let k = choose|k: int| 0 <= k < s.len() && s[k] == x;
                if k < s.len() - 1 {
                    assert(p[k] == x);
                    assert(p.contains(x));
                    let m = choose|m: int| 0 <= m < d.len() && d[m] == x;
                    if !d.contains(s.last()) {
                        assert(d.push(s.last())[m] == x);
                    }
                } else if !d.contains(x) {
                    assert(first_occurrences(s) == d.push(s.last()));
                    assert(d.push(s.last())[d.len() as int] == x);
                }
            }
            if first_occurrences(s).contains(x) {
                let k = choose|k: int| 0 <= k < first_occurrences(s).len() && first_occurrences(s)[k] == x;
                if k < d.len() {
                    assert(d[k] == x);
                    assert(d.contains(x));
                    assert(p.contains(x) <==> d.contains(x));
                    let m = choose|m: int| 0 <= m < p.len() && p[m] == x;
                    assert(s[m] == x);
                } else {
                    assert(s[s.len() - 1] == x);
                }
            }
        }
    }
}

proof fn lemma_flatten_push(r: Seq<Vec<String>>, v: Vec<String>)
    ensures
        flatten_paths(r.push(v)) == flatten_paths(r) + views(v@),
{
    assert(r.push(v).drop_last() =~= r);
}

/// The images of several roots, one list per root, joined in root order;
/// a path found under two roots is kept where it first appears.
pub fn join_roots(per_root: Vec<Vec<String>>) -> (r: Vec<String>)
    ensures
        views(r@) == first_occurrences(flatten_paths(per_root@)),
        forall|i: int, j: int| 0 <= i < j < r@.len() ==> r@[i]@ != r@[j]@,
        forall|x: Seq<char>|
            #[trigger] flatten_paths(per_root@).contains(x) <==> views(r@).contains(x),
{
    let mut out: Vec<String> = Vec::new();
    let mut i: usize = 0;
    while i < per_root.len()
        invariant
            i <= per_root@.len(),
            views(out@) == first_occurrences(flatten_paths(per_root@.take(i as int))),
        decreases per_root@.len() - i,
    {
        let ghost done = flatten_paths(per_root@.take(i as int));
        let list = &per_root[i];
        let mut j: usize = 0;
        while j < list.len()
            invariant
                j <= list@.len(),
                i < per_root@.len(),
                list == per_root@[i as int],
                views(out@) == first_occurrences(
                    done + views(list@.take(j as int)),
                ),
            decreases list@.len() - j,
        {
            let ghost seen = done + views(list@.take(j as int));
            let ghost next = done + views(list@.take(j + 1));
            assert(next.drop_last() =~= seen);
            assert(next.last() == list@[j as int]@);
            let mut k: usize = 0;
            let mut found = false;
            while k < out.len()
                invariant
                    k <= out@.len(),
                    j < list@.len(),
                    found ==> views(out@).contains(list@[j as int]@),
                    !found ==> forall|m: int| 0 <= m < k ==> out@[m]@ != list@[j as int]@,
                decreases out@.len() - k,
            {
                if out[k] == list[j] {
                    assert(views(out@)[k as int] == list@[j as int]@);
                    found = true;
                }
                k = k + 1;
            }
            if !found {
                let ghost before = out@;
                out.push(list[j].clone());
                assert(views(out@) =~= views(before).push(
                    list@[j as int]@,
                ));
                assert(!views(before).contains(list@[j as int]@)) by {
                    if views(before).contains(list@[j as int]@) {
                        let m = choose|m: int|
                            0 <= m < before.len() && #[trigger] views(before)[m]
                                == list@[j as int]@;
                        assert(before[m]@ == list@[j as int]@);
                    }
                }
            }
            j = j + 1;
        }
        proof {
            assert(list@.take(list@.len() as int) =~= list@);
            lemma_flatten_push(per_root@.take(i as int), per_root@[i as int]);
            assert(per_root@.take(i + 1) =~= per_root@.take(i as int).push(per_root@[i as int]));
        }
        i = i + 1;
    }
    proof {
        assert(per_root@.take(per_root@.len() as int) =~= per_root@);
        lemma_first_occurrences(flatten_paths(per_root@));
        let v = views(out@);
        assert forall|a: int, b: int| 0 <= a < b < out@.len() implies out@[a]@ != out@[b]@ by {
            assert(v[a] == out@[a]@ && v[b] == out@[b]@);
        }
    }
    out
}

} // verus!
