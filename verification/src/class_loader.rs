//! The class loading and resolution engine.
//!
//! Per name, a class goes from unrequested through loading to loaded or
//! failed.  A request for a cached name returns the same handle again, with
//! no lookup.  An array name is synthesized on the spot, its component
//! resolved through the same engine.  Any other name is searched for on the
//! class path one root at a time, decoded, checked for structural
//! consistency, and its super chain resolved recursively; a name revisited
//! while its own resolution is still in progress is a circularity fault,
//! which bounds the recursion on adversarial hierarchies.
//!
//! The engine performs no input itself: when it needs the bytes of a class
//! it answers `NeedEntry`, naming the root to probe and the entry to look
//! for, and its driver hands the outcome back through `entry_missing` or
//! `provide_class`.  Every decision — search order, every fault, every
//! registration — is made here.

use vstd::prelude::*;

use crate::class::Class;
use crate::class::ClassRef;
use crate::class::ACC_PUBLIC;
use crate::class_array::ClassArray;
use crate::class_file::ClassFile;
use crate::class_file::ClassLoadingError;
use crate::class_path::class_entry_name;
use crate::class_path::classpath_matches;
use crate::class_path::path_to_classpath;
use crate::class_path::ClassPath;
use crate::codec::str_eq;
use crate::field::fdesc_matches;
use crate::field::parse_field_descriptor;
use crate::field::sem_end;
use crate::field::spec_parse_fdesc;
use crate::field::FieldDescriptor;
use crate::field::SpecFieldDesc;
use crate::lazy::LazyResolve;

verus! {

/// What the engine asks of its driver, or how a request ended.
#[derive(Debug)]
pub enum LoaderStep {
    /// The request is done: the handle of the loaded class.
    Loaded(usize),
    /// The request is done: the fault it raised.  Nothing new was asked of
    /// the class path, and the faulting class was not registered.
    Failed(ClassLoadingError),
    /// Probe the class-path root with this index for the named entry, and
    /// answer through `entry_missing` or `provide_class`.
    NeedEntry { root: usize, entry_name: String },
}

/// One suspended load, waiting for another class to finish first.
#[derive(Debug)]
pub enum Frame {
    /// A decoded class waiting for its super class's handle.
    Super { class_file: ClassFile },
    /// An array class waiting for its component class's handle.
    Component { name: String, dimensions: u8 },
}

/// The class-path probe currently outstanding.
#[derive(Debug)]
pub struct SearchState {
    pub name: String,
    pub next_root: usize,
}

/// The engine: the ordered class path, the class table (handles are
/// indices, never reused), the name registry, and the state of the one
/// in-flight request.
#[derive(Debug)]
pub struct ClassLoader {
    pub classpath: Vec<ClassPath>,
    pub classes: Vec<Class>,
    pub class_map: Vec<(String, usize)>,
    pub stack: Vec<Frame>,
    pub search: Option<SearchState>,
}

/// The registry a pair list denotes: each name maps to the handle it was
/// registered under, later pairs winning (names are registered once, so no
/// pair is ever shadowed).
pub open spec fn map_of(pairs: Seq<(String, usize)>) -> Map<Seq<char>, int>
    decreases pairs.len(),
{
    if pairs.len() == 0 {
        Map::empty()
    } else {
        map_of(pairs.drop_last()).insert(pairs.last().0@, pairs.last().1 as int)
    }
}

/// The name a suspended load is waiting to register.
pub open spec fn frame_name(f: Frame) -> Seq<char> {
    match f {
        Frame::Super { class_file } => class_file.this_class@,
        Frame::Component { name, dimensions } => name@,
    }
}

/// Whether `name` is on the in-progress set of the current request: the
/// names of all suspended loads.
pub open spec fn in_progress(stack: Seq<Frame>, name: Seq<char>) -> bool {
    exists|i: int| 0 <= i < stack.len() && frame_name(#[trigger] stack[i]) == name
}

pub proof fn lemma_map_of_absent(pairs: Seq<(String, usize)>, name: Seq<char>)
    requires
        forall|i: int| 0 <= i < pairs.len() ==> (#[trigger] pairs[i]).0@ != name,
    ensures
        !map_of(pairs).contains_key(name),
    decreases pairs.len(),
{
    if pairs.len() > 0 {
        lemma_map_of_absent(pairs.drop_last(), name);
    }
}

pub proof fn lemma_map_of_index(pairs: Seq<(String, usize)>, name: Seq<char>, i: int)
    requires
        0 <= i < pairs.len(),
        pairs[i].0@ == name,
        forall|j: int, k: int|
            0 <= j < k < pairs.len() ==> (#[trigger] pairs[j]).0@ != (#[trigger] pairs[k]).0@,
    ensures
        map_of(pairs).contains_key(name),
        map_of(pairs)[name] == pairs[i].1 as int,
    decreases pairs.len(),
{
    if i + 1 == pairs.len() {
    } else {
        assert(pairs.drop_last()[i] == pairs[i]);
        lemma_map_of_index(pairs.drop_last(), name, i);
        assert(pairs[i].0@ != pairs[pairs.len() - 1].0@);
    }
}

/// Requesting an uncached array name whose component is a primitive kind
/// synthesizes the class on the spot: the request completes at once — no
/// class-path probe is asked for — and the registered class carries the
/// name's full dimensionality and its primitive component.
pub proof fn lemma_array_synthesis(
    pre: ClassLoader,
    post: ClassLoader,
    nm: Seq<char>,
    r: LoaderStep,
    sd: SpecFieldDesc,
)
    requires
        pre.idle(),
        !pre.loaded().contains_key(nm),
        starts_bracket(nm),
        leading_brackets(nm, 0) <= 255,
        spec_parse_fdesc(nm, leading_brackets(nm, 0)) matches Some(t) && t.0 == sd,
        !(sd is Reference),
        enter_post(pre.classpath@.len() as int, pre.classes@, pre.loaded(), pre.stack@, post, nm, r),
    ensures
        r == LoaderStep::Loaded(pre.classes@.len() as usize),
        post.classes@.len() == pre.classes@.len() + 1,
        (post.classes@.last() matches Class::Array(a) && a.dimensions == leading_brackets(nm, 0)
            && fdesc_matches(a.component_type, sd) && a.access_flags == ACC_PUBLIC && a.name@
            == nm),
        post.loaded() == pre.loaded().insert(nm, pre.classes@.len() as int),
        post.idle(),
{
    assert(!in_progress(pre.stack@, nm));
    let arr_class = post.classes@[pre.classes@.len() as int];
    assert(unwind(
        pre.classes@.push(arr_class),
        pre.loaded().insert(nm, pre.classes@.len() as int),
        pre.stack@,
        pre.classes@.len() as int,
    ) == (
        pre.classes@.push(arr_class),
        pre.loaded().insert(nm, pre.classes@.len() as int),
        Ok::<int, ClassLoadingError>(pre.classes@.len() as int),
    ));
}

/// What answering the outstanding probe for `nm` with `outcome` does.  In
/// order: a decode fault aborts the request; the decoded name must equal
/// the requested one; it must not already be registered; a name revisited
/// while its own resolution is in progress, or a declared super found on
/// the in-progress set, is a circularity; a class without a super class
/// must be the root type, and the root type registers at once; any other
/// super continues through the request path with this class suspended.
pub open spec fn provide_post(
    roots: int,
    cs: Seq<Class>,
    m: Map<Seq<char>, int>,
    stk: Seq<Frame>,
    nm: Seq<char>,
    outcome: Result<ClassFile, ClassLoadingError>,
    post: ClassLoader,
    r: LoaderStep,
) -> bool {
    match outcome {
        Err(e) => fail_post(cs, m, post, e, r),
        Ok(cf) => {
            &&& (cf.this_class@ != nm ==> fail_post(
                cs,
                m,
                post,
                ClassLoadingError::NoClassDefFoundError,
                r,
            ))
            &&& ((cf.this_class@ == nm && m.contains_key(nm)) ==> fail_post(
                cs,
                m,
                post,
                ClassLoadingError::LinkageError,
                r,
            ))
            &&& ((cf.this_class@ == nm && !m.contains_key(nm) && in_progress(stk, nm))
                ==> fail_post(cs, m, post, ClassLoadingError::ClassCircularityError, r))
            &&& ((cf.this_class@ == nm && !m.contains_key(nm) && !in_progress(stk, nm)) ==> match cf.super_class {
                None => {
                    if nm != "java/lang/Object"@ {
                        fail_post(cs, m, post, ClassLoadingError::ClassFormatError, r)
                    } else {
                        unwind_post(
                            cs.push(Class::File(cf)),
                            m.insert(cf.this_class@, cs.len() as int),
                            stk,
                            cs.len() as int,
                            post,
                            r,
                        )
                    }
                },
                Some(sc) => match sc {
                    ClassRef::Static(h) => true,
                    ClassRef::Symbolic(sn) => {
                        if in_progress(stk, sn@) {
                            fail_post(cs, m, post, ClassLoadingError::ClassCircularityError, r)
                        } else {
                            enter_post(
                                roots,
                                cs,
                                m,
                                stk.push(Frame::Super { class_file: cf }),
                                post,
                                sn@,
                                r,
                            )
                        }
                    },
                },
            })
        },
    }
}

/// A super chain that reaches back to a name whose own resolution is still
/// in progress is reported as a circularity fault, and registers nothing:
/// whether the revisited name is the decoded class itself or its declared
/// super, the request ends with `ClassCircularityError` and the class table
/// and registry are exactly as before.
pub proof fn lemma_cycle_is_circularity_fault(
    roots: int,
    cs: Seq<Class>,
    m: Map<Seq<char>, int>,
    stk: Seq<Frame>,
    nm: Seq<char>,
    cf: ClassFile,
    post: ClassLoader,
    r: LoaderStep,
)
    requires
        provide_post(roots, cs, m, stk, nm, Ok(cf), post, r),
        cf.this_class@ == nm,
        !m.contains_key(nm),
        in_progress(stk, nm) || (cf.super_class matches Some(ClassRef::Symbolic(sn))
            && in_progress(stk, sn@)),
    ensures
        r == LoaderStep::Failed(ClassLoadingError::ClassCircularityError),
        post.classes@ == cs,
        post.loaded() == m,
        post.idle(),
{
}

/// A class that declares no super class and is not the designated root type
/// is rejected as malformed, and registers nothing; the root type itself
/// registers with no super-resolution step.
pub proof fn lemma_rootless_class_is_rejected(
    roots: int,
    cs: Seq<Class>,
    m: Map<Seq<char>, int>,
    stk: Seq<Frame>,
    nm: Seq<char>,
    cf: ClassFile,
    post: ClassLoader,
    r: LoaderStep,
)
    requires
        provide_post(roots, cs, m, stk, nm, Ok(cf), post, r),
        cf.this_class@ == nm,
        !m.contains_key(nm),
        !in_progress(stk, nm),
        cf.super_class is None,
    ensures
        nm != "java/lang/Object"@ ==> (r == LoaderStep::Failed(ClassLoadingError::ClassFormatError)
            && post.classes@ == cs && post.loaded() == m && post.idle()),
        (nm == "java/lang/Object"@ && stk.len() == 0) ==> (r == LoaderStep::Loaded(
            cs.len() as usize,
        ) && post.classes@ == cs.push(Class::File(cf)) && post.loaded() == m.insert(
            nm,
            cs.len() as int,
        ) && post.idle()),
{
}

/// A super class that resolves to an interface-flagged class aborts the
/// request with an incompatible-hierarchy fault, and the suspended class is
/// not registered; everything already registered — the super itself
/// included — stays.
pub proof fn lemma_interface_super_is_rejected(
    roots: int,
    cs: Seq<Class>,
    m: Map<Seq<char>, int>,
    stk: Seq<Frame>,
    nm: Seq<char>,
    cf: ClassFile,
    sn: Seq<char>,
    post: ClassLoader,
    r: LoaderStep,
)
    requires
        provide_post(roots, cs, m, stk, nm, Ok(cf), post, r),
        cf.this_class@ == nm,
        !m.contains_key(nm),
        !in_progress(stk, nm),
        cf.super_class matches Some(ClassRef::Symbolic(n)) && n@ == sn,
        !in_progress(stk, sn),
        m.contains_key(sn),
        0 <= m[sn] < cs.len(),
        cs[m[sn]].is_interface(),
    ensures
        r == LoaderStep::Failed(ClassLoadingError::IncompatibleClassChangeError),
        post.classes@ == cs,
        post.loaded() == m,
        post.idle(),
{
    let stk2 = stk.push(Frame::Super { class_file: cf });
    assert(unwind(cs, m, stk2, m[sn]) == (
        cs,
        m,
        Err::<int, ClassLoadingError>(ClassLoadingError::IncompatibleClassChangeError),
    ));
}

/// Growth of the registry composes.
pub proof fn lemma_extends_trans(a: ClassLoader, b: ClassLoader, c: ClassLoader)
    requires
        a.extends(b),
        b.extends(c),
    ensures
        a.extends(c),
{
    assert forall|n: Seq<char>| #[trigger] a.loaded().contains_key(n) implies c.loaded().contains_key(
        n,
    ) && c.loaded()[n] == a.loaded()[n] by {
        assert(b.loaded().contains_key(n));
    }
}

impl ClassLoader {
    /// The registry: each loaded class's name, mapped to its handle.
    pub open spec fn loaded(self) -> Map<Seq<char>, int> {
        map_of(self.class_map@)
    }

    /// No request is in flight.
    pub open spec fn idle(self) -> bool {
        self.search is None && self.stack@.len() == 0
    }

    /// A class-path probe is outstanding.
    pub open spec fn awaiting(self) -> bool {
        self.search is Some
    }

    /// The registry part of the invariant: registered names are unique and
    /// map to in-range handles whose classes carry those names.
    pub open spec fn wf_registry(self) -> bool {
        &&& forall|i: int, j: int|
            0 <= i < j < self.class_map@.len() ==> (#[trigger] self.class_map@[i]).0@ != (
            #[trigger] self.class_map@[j]).0@
        &&& forall|i: int|
            0 <= i < self.class_map@.len() ==> (#[trigger] self.class_map@[i]).1
                < self.classes@.len()
        &&& forall|i: int|
            0 <= i < self.class_map@.len() ==> (#[trigger] self.class_map@[i]).0@
                == self.classes@[self.class_map@[i].1 as int].name()
    }

    /// The engine's invariant: the registry is well formed, and every
    /// suspended load waits on a distinct, not-yet-registered name.
    pub open spec fn wf(self) -> bool {
        &&& self.wf_registry()
        &&& forall|i: int, j: int|
            0 <= i < j < self.stack@.len() ==> frame_name(#[trigger] self.stack@[i]) != frame_name(
                #[trigger] self.stack@[j],
            )
        &&& forall|i: int|
            0 <= i < self.stack@.len() ==> !self.loaded().contains_key(
                frame_name(#[trigger] self.stack@[i]),
            )
        &&& (self.search matches Some(ss) ==> ss.next_root < self.classpath@.len())
    }

    /// The registry only grows: every loaded class keeps its handle, and
    /// the class table is extended, never rewritten.
    pub open spec fn extends(self, later: ClassLoader) -> bool {
        &&& later.classpath == self.classpath
        &&& self.classes@.len() <= later.classes@.len()
        &&& forall|i: int|
            0 <= i < self.classes@.len() ==> #[trigger] later.classes@[i] == self.classes@[i]
        &&& forall|n: Seq<char>|
            #[trigger] self.loaded().contains_key(n) ==> later.loaded().contains_key(n)
                && later.loaded()[n] == self.loaded()[n]
    }

    /// Builds a loader over an ordered class path; each path is classified
    /// as a directory or an archive root.
    pub fn new(classpath: Vec<String>) -> (r: ClassLoader)
        ensures
            r.wf(),
            r.idle(),
            r.classes@.len() == 0,
            r.loaded() == Map::<Seq<char>, int>::empty(),
            r.classpath@.len() == classpath@.len(),
            forall|i: int|
                0 <= i < classpath@.len() ==> classpath_matches(
                    #[trigger] r.classpath@[i],
                    classpath@[i]@,
                ),
    {
        let mut roots: Vec<ClassPath> = Vec::new();
        let mut i: usize = 0;
        while i < classpath.len()
            invariant
                i <= classpath@.len(),
                roots@.len() == i,
                forall|j: int|
                    0 <= j < i ==> classpath_matches(#[trigger] roots@[j], classpath@[j]@),
            decreases classpath@.len() - i,
        {
            roots.push(path_to_classpath(classpath[i].as_str()));
            i = i + 1;
        }
        ClassLoader {
            classpath: roots,
            classes: Vec::new(),
            class_map: Vec::new(),
            stack: Vec::new(),
            search: None,
        }
    }

    /// Places a loaded class into the class table and registers its name.
    fn register_class(&mut self, class_name: &str, class: Class) -> (r: usize)
        requires
            old(self).wf(),
            !old(self).loaded().contains_key(class_name@),
            class.name() == class_name@,
            forall|i: int|
                0 <= i < old(self).stack@.len() ==> frame_name(#[trigger] old(self).stack@[i])
                    != class_name@,
        ensures
            final(self).wf(),
            r == old(self).classes@.len(),
            final(self).classes@ == old(self).classes@.push(class),
            final(self).loaded() == old(self).loaded().insert(class_name@, r as int),
            final(self).stack == old(self).stack,
            final(self).search == old(self).search,
            final(self).classpath == old(self).classpath,
            forall|i: int|
                0 <= i < old(self).class_map@.len() ==> #[trigger] final(self).class_map@[i] == old(
                    self,
                ).class_map@[i],
    {
        let class_ref = self.classes.len();
        self.classes.push(class);
        self.class_map.push((class_name.to_owned(), class_ref));
        proof {
            let pairs = self.class_map@;
            assert(pairs.drop_last() =~= old(self).class_map@);
            assert(forall|i: int|
                0 <= i < old(self).class_map@.len() ==> #[trigger] pairs[i] == old(
                    self,
                ).class_map@[i]);
            assert forall|i: int| 0 <= i < old(self).class_map@.len() implies (#[trigger] pairs[i]).0@
                != class_name@ by {
                if pairs[i].0@ == class_name@ {
                    lemma_map_of_index(old(self).class_map@, class_name@, i);
                }
            }
        }
        class_ref
    }

    /// The handle registered under a name, where there is one.
    fn get_class(&self, class_name: &str) -> (r: Option<usize>)
        ensures
            self.wf() ==> match r {
                Some(h) => self.loaded().contains_key(class_name@) && self.loaded()[class_name@]
                    == h as int && h < self.classes@.len(),
                None => !self.loaded().contains_key(class_name@),
            },
    {
        let mut i: usize = 0;
        while i < self.class_map.len()
            invariant
                i <= self.class_map@.len(),
                forall|j: int| 0 <= j < i ==> (#[trigger] self.class_map@[j]).0@ != class_name@,
            decreases self.class_map@.len() - i,
        {
            if str_eq(self.class_map[i].0.as_str(), class_name) {
                proof {
                    if self.wf() {
                        lemma_map_of_index(self.class_map@, class_name@, i as int);
                    }
                }
                return Some(self.class_map[i].1);
            }
            i = i + 1;
        }
        proof {
            lemma_map_of_absent(self.class_map@, class_name@);
        }
        None
    }
}

/// The engine resolves names from its registry alone: a symbolic reference
/// promoted through the loader gets the handle of an already loaded class,
/// never a fresh load.
impl LazyResolve<usize> for ClassLoader {
    fn resolve(&mut self, name: &str) -> (r: Option<usize>) {
        self.get_class(name)
    }
}

/// Whether a name starts with an array dimensionality marker.
pub open spec fn starts_bracket(name: Seq<char>) -> bool {
    name.len() > 0 && name[0] == '['
}

/// The first position at or after `i` that holds no `[` marker.
pub open spec fn leading_brackets(s: Seq<char>, i: int) -> int
    decreases s.len() - i,
{
    if i < 0 || i >= s.len() {
        i
    } else if s[i] == '[' {
        leading_brackets(s, i + 1)
    } else {
        i
    }
}

/// How handing a finished class's handle to the suspended loads plays out:
/// each suspended class registers in turn, bottom of the chain first, unless
/// a super class turns out to be an interface, which aborts the request and
/// registers nothing further.  Returns the class table, the registry, and
/// the request's outcome.
pub open spec fn unwind(
    classes: Seq<Class>,
    m: Map<Seq<char>, int>,
    stack: Seq<Frame>,
    h: int,
) -> (Seq<Class>, Map<Seq<char>, int>, Result<int, ClassLoadingError>)
    decreases stack.len(),
{
    if stack.len() == 0 {
        (classes, m, Ok(h))
    } else {
        match stack.last() {
            Frame::Super { class_file } => {
                if 0 <= h < classes.len() && classes[h].is_interface() {
                    (classes, m, Err(ClassLoadingError::IncompatibleClassChangeError))
                } else {
                    let resolved = ClassFile {
                        super_class: Some(ClassRef::Static(h as usize)),
                        ..class_file
                    };
                    unwind(
                        classes.push(Class::File(resolved)),
                        m.insert(class_file.this_class@, classes.len() as int),
                        stack.drop_last(),
                        classes.len() as int,
                    )
                }
            },
            Frame::Component { name, dimensions } => {
                let arr = ClassArray {
                    dimensions,
                    component_type: FieldDescriptor::Reference(ClassRef::Static(h as usize)),
                    access_flags: ACC_PUBLIC,
                    name,
                };
                unwind(
                    classes.push(Class::Array(arr)),
                    m.insert(arr.name@, classes.len() as int),
                    stack.drop_last(),
                    classes.len() as int,
                )
            },
        }
    }
}

/// The request ended with this fault, and registered nothing.
pub open spec fn fail_post(
    cs: Seq<Class>,
    m: Map<Seq<char>, int>,
    post: ClassLoader,
    e: ClassLoadingError,
    r: LoaderStep,
) -> bool {
    &&& r == LoaderStep::Failed(e)
    &&& post.classes@ == cs
    &&& post.loaded() == m
    &&& post.idle()
}

/// Handing `h` to the suspended loads in `stk` played out as `unwind` says,
/// and the request is over.
pub open spec fn unwind_post(
    cs: Seq<Class>,
    m: Map<Seq<char>, int>,
    stk: Seq<Frame>,
    h: int,
    post: ClassLoader,
    r: LoaderStep,
) -> bool {
    let u = unwind(cs, m, stk, h);
    &&& post.classes@ == u.0
    &&& post.loaded() == u.1
    &&& post.idle()
    &&& match u.2 {
        Ok(hh) => r == LoaderStep::Loaded(hh as usize),
        Err(e) => r == LoaderStep::Failed(e),
    }
}

/// A class-path search for `nm` began at the first root; nothing was
/// registered and the suspended loads are untouched.
pub open spec fn search_post(
    cs: Seq<Class>,
    m: Map<Seq<char>, int>,
    stk: Seq<Frame>,
    post: ClassLoader,
    nm: Seq<char>,
    r: LoaderStep,
) -> bool {
    &&& post.classes@ == cs
    &&& post.loaded() == m
    &&& post.stack@ == stk
    &&& (post.search matches Some(ss) && ss.name@ == nm && ss.next_root == 0)
    &&& (r matches LoaderStep::NeedEntry { root, entry_name } && root == 0 && entry_name@ == nm
        + ".class"@)
}

/// An array class for `nm` was synthesized and registered, its component
/// either the given specification-level type or, where `comp_cached` names
/// a handle, a resolved reference to it; the new handle then unwound the
/// suspended loads.
pub open spec fn array_done_post(
    cs: Seq<Class>,
    m: Map<Seq<char>, int>,
    stk: Seq<Frame>,
    post: ClassLoader,
    nm: Seq<char>,
    dims: int,
    sd: SpecFieldDesc,
    comp_cached: Option<int>,
    r: LoaderStep,
) -> bool {
    &&& post.classes@.len() > cs.len()
    &&& (post.classes@[cs.len() as int] matches Class::Array(a) && {
        &&& a.dimensions == dims
        &&& a.access_flags == ACC_PUBLIC
        &&& a.name@ == nm
        &&& match comp_cached {
            None => fdesc_matches(a.component_type, sd),
            Some(h) => a.component_type == FieldDescriptor::Reference(
                ClassRef::Static(h as usize),
            ),
        }
    })
    &&& unwind_post(
        cs.push(post.classes@[cs.len() as int]),
        m.insert(nm, cs.len() as int),
        stk,
        cs.len() as int,
        post,
        r,
    )
}

/// What a request for `nm` does, for every shape of name, relative to the
/// suspended loads `stk` of the current request.
pub open spec fn enter_post(
    roots: int,
    cs: Seq<Class>,
    m: Map<Seq<char>, int>,
    stk: Seq<Frame>,
    post: ClassLoader,
    nm: Seq<char>,
    r: LoaderStep,
) -> bool
    decreases nm.len(), 1int,
{
    &&& (m.contains_key(nm) ==> unwind_post(cs, m, stk, m[nm], post, r))
    &&& ((!m.contains_key(nm) && !starts_bracket(nm)) ==> (if roots == 0 {
        fail_post(cs, m, post, ClassLoadingError::NoClassDefFoundError, r)
    } else {
        search_post(cs, m, stk, post, nm, r)
    }))
    &&& ((!m.contains_key(nm) && starts_bracket(nm)) ==> array_enter_post(
        roots,
        cs,
        m,
        stk,
        post,
        nm,
        r,
    ))
}

/// What a request for an uncached array name does: a name already in
/// progress is a circularity; too many dimensionality markers or a
/// component outside the descriptor grammar is a format fault; a primitive
/// or already-loaded component finishes the array on the spot; an unloaded
/// plain component starts its search with the array suspended.
pub open spec fn array_enter_post(
    roots: int,
    cs: Seq<Class>,
    m: Map<Seq<char>, int>,
    stk: Seq<Frame>,
    post: ClassLoader,
    nm: Seq<char>,
    r: LoaderStep,
) -> bool
    decreases nm.len(), 0int,
{
    if in_progress(stk, nm) {
        fail_post(cs, m, post, ClassLoadingError::ClassCircularityError, r)
    } else {
        let dims = leading_brackets(nm, 0);
        if dims > 255 {
            fail_post(cs, m, post, ClassLoadingError::ClassFormatError, r)
        } else {
            match spec_parse_fdesc(nm, dims) {
                None => fail_post(cs, m, post, ClassLoadingError::ClassFormatError, r),
                Some(t) => match t.0 {
                    SpecFieldDesc::Reference(cn) => {
                        if m.contains_key(cn) {
                            array_done_post(cs, m, stk, post, nm, dims, t.0, Some(m[cn]), r)
                        } else if !starts_bracket(cn) {
                            if roots == 0 {
                                fail_post(cs, m, post, ClassLoadingError::NoClassDefFoundError, r)
                            } else {
                                &&& post.classes@ == cs
                                &&& post.loaded() == m
                                &&& post.stack@.len() == stk.len() + 1
                                &&& (forall|i: int|
                                    0 <= i < stk.len() ==> #[trigger] post.stack@[i] == stk[i])
                                &&& (post.stack@.last() matches Frame::Component {
                                    name,
                                    dimensions,
                                } && name@ == nm && dimensions == dims)
                                &&& (post.search matches Some(ss) && ss.name@ == cn
                                    && ss.next_root == 0)
                                &&& (r matches LoaderStep::NeedEntry { root, entry_name } && root
                                    == 0 && entry_name@ == cn + ".class"@)
                            }
                        } else if cn.len() < nm.len() {
                            // the component is itself an array-shaped name:
                            // this array suspends on it, and the component
                            // resolves through this same engine — a
                            // component name is always shorter than the
                            // array's, which bounds the recursion
                            exists|f: Frame|
                                {
                                    &&& (#[trigger] frame_name(f)) == nm
                                    &&& (f matches Frame::Component { name, dimensions: fd }
                                        && name@ == nm && fd == dims)
                                    &&& enter_post(roots, cs, m, stk.push(f), post, cn, r)
                                }
                        } else {
                            true
                        }
                    },
                    _ => array_done_post(cs, m, stk, post, nm, dims, t.0, None, r),
                },
            }
        }
    }
}

/// The table and registry only ever grow during an unwind, so every class
/// keeps its place.
pub proof fn lemma_unwind_prefix(
    classes: Seq<Class>,
    m: Map<Seq<char>, int>,
    stack: Seq<Frame>,
    h: int,
)
    ensures
        ({
            let u = unwind(classes, m, stack, h);
            u.0.len() >= classes.len() && (forall|i: int|
                0 <= i < classes.len() ==> #[trigger] u.0[i] == classes[i])
        }),
    decreases stack.len(),
{
    if stack.len() > 0 {
        match stack.last() {
            Frame::Super { class_file } => {
                if 0 <= h < classes.len() && classes[h].is_interface() {
                } else {
                    let resolved = ClassFile {
                        super_class: Some(ClassRef::Static(h as usize)),
                        ..class_file
                    };
                    lemma_unwind_prefix(
                        classes.push(Class::File(resolved)),
                        m.insert(class_file.this_class@, classes.len() as int),
                        stack.drop_last(),
                        classes.len() as int,
                    );
                }
            },
            Frame::Component { name, dimensions } => {
                let arr = ClassArray {
                    dimensions,
                    component_type: FieldDescriptor::Reference(ClassRef::Static(h as usize)),
                    access_flags: ACC_PUBLIC,
                    name,
                };
                lemma_unwind_prefix(
                    classes.push(Class::Array(arr)),
                    m.insert(arr.name@, classes.len() as int),
                    stack.drop_last(),
                    classes.len() as int,
                );
            },
        }
    }
}

/// Whether any suspended load waits on this name.
fn is_in_progress(stack: &Vec<Frame>, class_name: &str) -> (r: bool)
    ensures
        r == in_progress(stack@, class_name@),
{
    let mut i: usize = 0;
    while i < stack.len()
        invariant
            i <= stack@.len(),
            forall|j: int| 0 <= j < i ==> frame_name(#[trigger] stack@[j]) != class_name@,
        decreases stack@.len() - i,
    {
        let hit = match &stack[i] {
            Frame::Super { class_file } => str_eq(class_file.this_class.as_str(), class_name),
            Frame::Component { name, dimensions } => str_eq(name.as_str(), class_name),
        };
        if hit {
            return true;
        }
        i = i + 1;
    }
    false
}

impl ClassLoader {
    /// Aborts the in-flight request: the suspended loads are discarded, and
    /// everything already registered stays.
    fn abort(&mut self, fault: ClassLoadingError) -> (r: LoaderStep)
        requires
            old(self).wf_registry(),
        ensures
            final(self).wf(),
            final(self).idle(),
            r == LoaderStep::Failed(fault),
            final(self).classes == old(self).classes,
            final(self).class_map == old(self).class_map,
            final(self).classpath == old(self).classpath,
    {
        self.stack = Vec::new();
        self.search = None;
        LoaderStep::Failed(fault)
    }

    /// Hands a finished class's handle to the suspended loads: pops and
    /// registers each in turn, checking that no super class is an
    /// interface.
    fn complete(&mut self, handle: usize) -> (r: LoaderStep)
        requires
            old(self).wf(),
            old(self).search is None,
            handle < old(self).classes@.len(),
        ensures
            final(self).wf(),
            final(self).idle(),
            old(self).extends(*final(self)),
            ({
                let u = unwind(
                    old(self).classes@,
                    old(self).loaded(),
                    old(self).stack@,
                    handle as int,
                );
                &&& final(self).classes@ == u.0
                &&& final(self).loaded() == u.1
                &&& match u.2 {
                    Ok(h) => r == LoaderStep::Loaded(h as usize),
                    Err(e) => r == LoaderStep::Failed(e),
                }
            }),
    {
        let ghost gstart = *self;
        let mut h = handle;
        loop
            invariant
                gstart == *old(self),
                self.wf(),
                self.search is None,
                h < self.classes@.len(),
                gstart.extends(*self),
                unwind(gstart.classes@, gstart.loaded(), gstart.stack@, handle as int) == unwind(
                    self.classes@,
                    self.loaded(),
                    self.stack@,
                    h as int,
                ),
            ensures
                self.wf(),
                self.search is None,
                self.stack@.len() == 0,
                h < self.classes@.len(),
                gstart.extends(*self),
                unwind(gstart.classes@, gstart.loaded(), gstart.stack@, handle as int) == (
                    self.classes@,
                    self.loaded(),
                    Ok::<int, ClassLoadingError>(h as int),
                ),
            decreases self.stack@.len(),
        {
            let ghost prev = *self;
            let ghost h0 = h;
            let frame = match self.stack.pop() {
                Some(f) => f,
                None => {
                    break ;
                },
            };
            let ghost gframe = frame;
            proof {
                assert(gframe == prev.stack@.last());
                assert(self.stack@ == prev.stack@.drop_last());
            }
            match frame {
                Frame::Super { mut class_file } => {
                    if self.classes[h].get_access_flags() & crate::class::ACC_INTERFACE != 0 {
                        proof {
                            assert(unwind(prev.classes@, prev.loaded(), prev.stack@, h0 as int) == (
                                self.classes@,
                                self.loaded(),
                                Err::<int, ClassLoadingError>(
                                    ClassLoadingError::IncompatibleClassChangeError,
                                ),
                            ));
                        }
                        let ghost gpre = *self;
                        let res = self.abort(ClassLoadingError::IncompatibleClassChangeError);
                        proof {
                            assert(self.classes@ == gpre.classes@);
                            assert(self.loaded() == gpre.loaded());
                            assert(unwind(
                                gstart.classes@,
                                gstart.loaded(),
                                gstart.stack@,
                                handle as int,
                            ) == (
                                self.classes@,
                                self.loaded(),
                                Err::<int, ClassLoadingError>(
                                    ClassLoadingError::IncompatibleClassChangeError,
                                ),
                            ));
                        }
                        return res;
                    }
                    let cname = class_file.this_class.clone();
                    class_file.super_class = Some(ClassRef::Static(h));
                    h = self.register_class(cname.as_str(), Class::File(class_file));
                    proof {
                        assert(unwind(prev.classes@, prev.loaded(), prev.stack@, h0 as int)
                            == unwind(self.classes@, self.loaded(), self.stack@, h as int));
                        assert forall|nn: Seq<char>| #[trigger] gstart.loaded().contains_key(
                            nn,
                        ) implies {
                            &&& self.loaded().contains_key(nn)
                            &&& self.loaded()[nn] == gstart.loaded()[nn]
                        } by {
                            assert(prev.loaded().contains_key(nn));
                        }
                    }
                },
                Frame::Component { name, dimensions } => {
                    let cname = name.clone();
                    let arr = ClassArray {
                        dimensions,
                        component_type: FieldDescriptor::Reference(ClassRef::Static(h)),
                        access_flags: ACC_PUBLIC,
                        name,
                    };
                    h = self.register_class(cname.as_str(), Class::Array(arr));
                    proof {
                        assert(unwind(prev.classes@, prev.loaded(), prev.stack@, h0 as int)
                            == unwind(self.classes@, self.loaded(), self.stack@, h as int));
                        assert forall|nn: Seq<char>| #[trigger] gstart.loaded().contains_key(
                            nn,
                        ) implies {
                            &&& self.loaded().contains_key(nn)
                            &&& self.loaded()[nn] == gstart.loaded()[nn]
                        } by {
                            assert(prev.loaded().contains_key(nn));
                        }
                    }
                },
            }
        }
        LoaderStep::Loaded(h)
    }

    /// Requests a class from inside the current request: a cached name
    /// completes at once with its existing handle; an array name is
    /// synthesized, its component resolved through this same path; any
    /// other name starts a class-path search.
    fn enter(&mut self, class_name: String) -> (r: LoaderStep)
        requires
            old(self).wf(),
            old(self).search is None,
        ensures
            final(self).wf(),
            old(self).extends(*final(self)),
            (r is NeedEntry <==> final(self).awaiting()),
            (!(r is NeedEntry) ==> final(self).idle()),
            r matches LoaderStep::NeedEntry { root, entry_name } ==> (final(self).search
                matches Some(ss) && ss.next_root == root && entry_name@ == ss.name@ + ".class"@),
            r is NeedEntry ==> (final(self).stack@.len() >= old(self).stack@.len() && (forall|
                i: int,
            |
                0 <= i < old(self).stack@.len() ==> #[trigger] final(self).stack@[i] == old(
                    self,
                ).stack@[i])),
            enter_post(
                old(self).classpath@.len() as int,
                old(self).classes@,
                old(self).loaded(),
                old(self).stack@,
                *final(self),
                class_name@,
                r,
            ),
        decreases class_name@.len(),
    {
        match self.get_class(class_name.as_str()) {
            Some(h) => {
                return self.complete(h);
            },
            None => {},
        }
        let n = class_name.as_str().unicode_len();
        let is_array = n > 0 && class_name.as_str().get_char(0) == '[';
        if !is_array {
            if self.classpath.len() == 0 {
                return self.abort(ClassLoadingError::NoClassDefFoundError);
            }
            let entry = class_entry_name(class_name.as_str());
            self.search = Some(SearchState { name: class_name, next_root: 0 });
            return LoaderStep::NeedEntry { root: 0, entry_name: entry };
        }
        if is_in_progress(&self.stack, class_name.as_str()) {
            return self.abort(ClassLoadingError::ClassCircularityError);
        }
        let mut i: usize = 0;
        while i < n && class_name.as_str().get_char(i) == '['
            invariant
                i <= n,
                n == class_name@.len(),
                leading_brackets(class_name@, i as int) == leading_brackets(class_name@, 0),
            decreases n - i,
        {
            i = i + 1;
        }
        proof {
            assert(leading_brackets(class_name@, 0) == i);
        }
        if i > 255 {
            return self.abort(ClassLoadingError::ClassFormatError);
        }
        let dims: u8 = i as u8;
        let (component, _component_end) = match parse_field_descriptor(class_name.as_str(), i) {
            Ok(t) => t,
            Err(_) => {
                return self.abort(ClassLoadingError::ClassFormatError);
            },
        };
        let ghost gcomp = component;
        match component {
            FieldDescriptor::Reference(cref) => {
                let comp_name = match cref {
                    ClassRef::Symbolic(cn) => cn,
                    ClassRef::Static(_) => {
                        proof {
                            assert(false);
                        }
                        vstd::pervasive::unreached()
                    },
                };
                match self.get_class(comp_name.as_str()) {
                    Some(h) => {
                        let arr = ClassArray {
                            dimensions: dims,
                            component_type: FieldDescriptor::Reference(ClassRef::Static(h)),
                            access_flags: ACC_PUBLIC,
                            name: class_name.clone(),
                        };
                        let ghost garr = arr;
                        let h2 = self.register_class(class_name.as_str(), Class::Array(arr));
                        let ghost mid = *self;
                        proof {
                            lemma_unwind_prefix(
                                old(self).classes@.push(Class::Array(garr)),
                                old(self).loaded().insert(class_name@, h2 as int),
                                old(self).stack@,
                                h2 as int,
                            );
                            assert forall|nn: Seq<char>|
                                #[trigger] old(self).loaded().contains_key(nn) implies mid.loaded().contains_key(nn)
                                && mid.loaded()[nn] == old(self).loaded()[nn] by {}
                            assert(old(self).extends(mid));
                        }
                        let res = self.complete(h2);
                        proof {
                            lemma_extends_trans(*old(self), mid, *self);
                        }
                        return res;
                    },
                    None => {
                        let comp_is_array = comp_name.as_str().unicode_len() > 0
                            && comp_name.as_str().get_char(0) == '[';
                        if comp_is_array {
                            proof {
                                let sq = class_name@;
                                let ii = i as int;
                                assert(sq[0] == '[');
                                assert(ii >= 1) by {
                                    if ii == 0 {
                                        assert(sq[0] != '[');
                                    }
                                }
                                assert(sq[ii] != '[');
                                match spec_parse_fdesc(sq, ii) {
                                    Some(st) => {
                                        assert(st.0 matches SpecFieldDesc::Reference(sn)
                                            && comp_name@ == sn);
                                        assert(sq[ii] == 'L');
                                        match sem_end(sq, ii + 1) {
                                            Some(e) => {
                                                crate::field::lemma_sem_end_bounds(sq, ii + 1);
                                                assert(st.1 == e);
                                                assert(e <= sq.len());
                                                assert(comp_name@ == sq.subrange(ii + 1, e - 1));
                                                assert(comp_name@.len() < class_name@.len());
                                            },
                                            None => {
                                                assert(false);
                                            },
                                        }
                                    },
                                    None => {
                                        assert(false);
                                    },
                                }
                            }
                            let ghost gnm = class_name@;
                            self.stack.push(
                                Frame::Component { name: class_name, dimensions: dims },
                            );
                            let ghost gmid = *self;
                            let ghost gframe = gmid.stack@.last();
                            let ghost gcn = comp_name@;
                            let res = self.enter(comp_name);
                            proof {
                                assert(gmid.stack@ =~= old(self).stack@.push(gframe));
                                assert(frame_name(gframe) == gnm);
                                assert(enter_post(
                                    old(self).classpath@.len() as int,
                                    old(self).classes@,
                                    old(self).loaded(),
                                    old(self).stack@.push(gframe),
                                    *self,
                                    gcn,
                                    res,
                                ));
                                if res is NeedEntry {
                                    assert(forall|i: int|
                                        0 <= i < old(self).stack@.len()
                                            ==> #[trigger] self.stack@[i] == old(
                                            self,
                                        ).stack@[i]) by {
                                        assert(forall|i: int|
                                            0 <= i < gmid.stack@.len()
                                                ==> #[trigger] self.stack@[i] == gmid.stack@[i]);
                                    }
                                    assert(self.stack@[old(self).stack@.len() as int]
                                        == gmid.stack@[old(self).stack@.len() as int]);
                                }
                            }
                            return res;
                        }
                        if self.classpath.len() == 0 {
                            return self.abort(ClassLoadingError::NoClassDefFoundError);
                        }
                        let entry = class_entry_name(comp_name.as_str());
                        self.stack.push(Frame::Component { name: class_name, dimensions: dims });
                        self.search = Some(SearchState { name: comp_name, next_root: 0 });
                        return LoaderStep::NeedEntry { root: 0, entry_name: entry };
                    },
                }
            },
            other => {
                // every dimensionality marker was stripped before parsing,
                // so the component here is a primitive kind: the array
                // completes at once, with no lookup
                let arr = ClassArray {
                    dimensions: dims,
                    component_type: other,
                    access_flags: ACC_PUBLIC,
                    name: class_name.clone(),
                };
                let ghost garr = arr;
                let h2 = self.register_class(class_name.as_str(), Class::Array(arr));
                let ghost mid = *self;
                proof {
                    lemma_unwind_prefix(
                        old(self).classes@.push(Class::Array(garr)),
                        old(self).loaded().insert(class_name@, h2 as int),
                        old(self).stack@,
                        h2 as int,
                    );
                    assert forall|nn: Seq<char>|
                        #[trigger] old(self).loaded().contains_key(nn) implies mid.loaded().contains_key(nn)
                        && mid.loaded()[nn] == old(self).loaded()[nn] by {}
                    assert(old(self).extends(mid));
                }
                let res = self.complete(h2);
                proof {
                    lemma_extends_trans(*old(self), mid, *self);
                }
                return res;
            },
        }
    }

    /// Requests a class by name: the cached handle where the name is
    /// already loaded — idempotent, with no lookup performed — a
    /// synthesized class for an array name, or the start of a class-path
    /// search.
    pub fn create_class(&mut self, class_name: &str) -> (r: LoaderStep)
        requires
            old(self).wf(),
            old(self).idle(),
        ensures
            final(self).wf(),
            old(self).extends(*final(self)),
            (r is NeedEntry <==> final(self).awaiting()),
            (!(r is NeedEntry) ==> final(self).idle()),
            r matches LoaderStep::NeedEntry { root, entry_name } ==> (final(self).search
                matches Some(ss) && ss.next_root == root && entry_name@ == ss.name@ + ".class"@),
            enter_post(
                old(self).classpath@.len() as int,
                old(self).classes@,
                old(self).loaded(),
                old(self).stack@,
                *final(self),
                class_name@,
                r,
            ),
            old(self).loaded().contains_key(class_name@) ==> (r == LoaderStep::Loaded(
                old(self).loaded()[class_name@] as usize,
            ) && final(self).classes@ == old(self).classes@ && final(self).loaded() == old(
                self,
            ).loaded() && final(self).idle()),
    {
        let r = self.enter(class_name.to_owned());
        proof {
            if old(self).loaded().contains_key(class_name@) {
                assert(unwind(
                    old(self).classes@,
                    old(self).loaded(),
                    old(self).stack@,
                    old(self).loaded()[class_name@],
                ) == (
                    old(self).classes@,
                    old(self).loaded(),
                    Ok::<int, ClassLoadingError>(old(self).loaded()[class_name@]),
                ));
            }
        }
        r
    }

    /// Answers an outstanding probe that found nothing: the next root in
    /// configured order is tried, and only once every root has been tried
    /// does the request fail with a not-found fault.
    pub fn entry_missing(&mut self) -> (r: LoaderStep)
        requires
            old(self).wf(),
            old(self).awaiting(),
        ensures
            final(self).wf(),
            old(self).extends(*final(self)),
            final(self).classes@ == old(self).classes@,
            final(self).loaded() == old(self).loaded(),
            (r is NeedEntry <==> final(self).awaiting()),
            (!(r is NeedEntry) ==> final(self).idle()),
            match old(self).search {
                None => true,
                Some(ss) => {
                    if ss.next_root + 1 < old(self).classpath@.len() {
                        &&& (r matches LoaderStep::NeedEntry { root, entry_name } && root
                            == ss.next_root + 1 && entry_name@ == ss.name@ + ".class"@)
                        &&& (final(self).search matches Some(s2) && s2.name@ == ss.name@
                            && s2.next_root == ss.next_root + 1)
                        &&& final(self).stack@ == old(self).stack@
                    } else {
                        r == LoaderStep::Failed(ClassLoadingError::NoClassDefFoundError)
                    }
                },
            },
    {
        let (name, next_root) = match &self.search {
            Some(ss) => (ss.name.clone(), ss.next_root),
            None => {
                proof {
                    assert(false);
                }
                vstd::pervasive::unreached()
            },
        };
        let limit = self.classpath.len();
        proof {
            assert(next_root < limit);
        }
        if next_root < limit - 1 {
            let entry = class_entry_name(name.as_str());
            self.search = Some(SearchState { name, next_root: next_root + 1 });
            LoaderStep::NeedEntry { root: next_root + 1, entry_name: entry }
        } else {
            self.abort(ClassLoadingError::NoClassDefFoundError)
        }
    }

    /// Answers an outstanding probe with the decoded outcome of the bytes
    /// the first matching root supplied; no later root is consulted for
    /// this name.  In order: a decode fault aborts the request; the decoded
    /// name must equal the requested name; it must not already be
    /// registered; a name revisited while its own resolution is in
    /// progress, or a super chain reaching back into the in-progress set,
    /// is a circularity; a class without a super class must be the root
    /// type; once the super class resolves, it must not be an interface.
    pub fn provide_class(&mut self, outcome: Result<ClassFile, ClassLoadingError>) -> (r:
        LoaderStep)
        requires
            old(self).wf(),
            old(self).awaiting(),
            outcome matches Ok(cf) ==> !(cf.super_class matches Some(ClassRef::Static(h))),
        ensures
            final(self).wf(),
            old(self).extends(*final(self)),
            (r is NeedEntry <==> final(self).awaiting()),
            (!(r is NeedEntry) ==> final(self).idle()),
            r matches LoaderStep::NeedEntry { root, entry_name } ==> (final(self).search
                matches Some(ss) && ss.next_root == root && entry_name@ == ss.name@ + ".class"@),
            match old(self).search {
                None => true,
                Some(ss) => provide_post(
                    old(self).classpath@.len() as int,
                    old(self).classes@,
                    old(self).loaded(),
                    old(self).stack@,
                    ss.name@,
                    outcome,
                    *final(self),
                    r,
                ),
            },
    {
        let (name, _next_root) = match &self.search {
            Some(ss) => (ss.name.clone(), ss.next_root),
            None => {
                proof {
                    assert(false);
                }
                vstd::pervasive::unreached()
            },
        };
        self.search = None;
        let cf = match outcome {
            Ok(cf) => cf,
            Err(e) => {
                return self.abort(e);
            },
        };
        if !str_eq(cf.this_class.as_str(), name.as_str()) {
            return self.abort(ClassLoadingError::NoClassDefFoundError);
        }
        match self.get_class(name.as_str()) {
            Some(_) => {
                return self.abort(ClassLoadingError::LinkageError);
            },
            None => {},
        }
        if is_in_progress(&self.stack, name.as_str()) {
            return self.abort(ClassLoadingError::ClassCircularityError);
        }
        let has_super = cf.has_super_class();
        if !has_super {
            if !str_eq(name.as_str(), "java/lang/Object") {
                return self.abort(ClassLoadingError::ClassFormatError);
            }
            let ghost gcf = cf;
            let h = self.register_class(name.as_str(), Class::File(cf));
            let ghost mid = *self;
            proof {
                lemma_unwind_prefix(
                    old(self).classes@.push(Class::File(gcf)),
                    old(self).loaded().insert(gcf.this_class@, h as int),
                    old(self).stack@,
                    h as int,
                );
                assert forall|nn: Seq<char>|
                    #[trigger] old(self).loaded().contains_key(nn) implies mid.loaded().contains_key(nn)
                    && mid.loaded()[nn] == old(self).loaded()[nn] by {}
                assert(old(self).extends(mid));
            }
            let res = self.complete(h);
            proof {
                lemma_extends_trans(*old(self), mid, *self);
            }
            return res;
        }
        let super_name = match &cf.super_class {
            Some(ClassRef::Symbolic(sn)) => sn.clone(),
            _ => {
                proof {
                    assert(false);
                }
                vstd::pervasive::unreached()
            },
        };
        if is_in_progress(&self.stack, super_name.as_str()) {
            return self.abort(ClassLoadingError::ClassCircularityError);
        }
        self.stack.push(Frame::Super { class_file: cf });
        self.enter(super_name)
    }
}

} // verus!
