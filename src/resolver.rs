use vstd::prelude::*;

use crate::error::{Address, Error, ErrorKind};

verus! {

/// A top-level item of an analyzed module, as far as import resolution
/// tells them apart.
#[derive(Debug)]
pub enum Node {
    /// A sequence of items: the whole module.
    Block { body: Vec<Node> },
    /// A binding to a host function.
    Native { name: String },
    FnDeclaration { name: String },
    Type { name: String },
    Unit { name: String },
    Trait { name: String },
    /// A re-export of another module.
    Import { name: String },
    /// A bare numeric statement.
    Number { value: i64 },
    /// Any other statement or expression.
    Statement { text: String },
}

/// The items that make up a module's public surface.
pub open spec fn is_declaration(n: Node) -> bool {
    match n {
        Node::Native { .. } => true,
        Node::FnDeclaration { .. } => true,
        Node::Type { .. } => true,
        Node::Unit { .. } => true,
        Node::Trait { .. } => true,
        Node::Import { .. } => true,
        _ => false,
    }
}

/// The declarations of `s`, in their order in `s`.
pub open spec fn declarations(s: Seq<Node>) -> Seq<Node>
    decreases s.len(),
{
    if s.len() == 0 {
        Seq::empty()
    } else if is_declaration(s.last()) {
        declarations(s.drop_last()).push(s.last())
    } else {
        declarations(s.drop_last())
    }
}

/// The items of a block; empty for any other node.
pub open spec fn block_body(n: Node) -> Seq<Node> {
    match n {
        Node::Block { body } => body@,
        _ => Seq::empty(),
    }
}

/// A block made of declarations only.
pub open spec fn is_declaration_block(n: Node) -> bool {
    &&& n is Block
    &&& forall|i: int| 0 <= i < block_body(n).len() ==> is_declaration(#[trigger] block_body(n)[i])
}

proof fn lemma_declarations_only(s: Seq<Node>)
    ensures
        forall|i: int| 0 <= i < declarations(s).len() ==> is_declaration(#[trigger] declarations(s)[i]),
    decreases s.len(),
{
    if s.len() > 0 {
        lemma_declarations_only(s.drop_last());
        let d = declarations(s.drop_last());
        assert forall|i: int| 0 <= i < declarations(s).len() implies is_declaration(#[trigger] declarations(s)[i]) by {
            if i < d.len() {
                assert(declarations(s)[i] == d[i]);
            }
        }
    }
}

impl Node {
    /// Whether this item belongs to a module's public surface.
    pub fn is_declaration(&self) -> (r: bool)
        ensures
            r == is_declaration(*self),
    {
        match self {
            Node::Native { .. } => true,
            Node::FnDeclaration { .. } => true,
            Node::Type { .. } => true,
            Node::Unit { .. } => true,
            Node::Trait { .. } => true,
            Node::Import { .. } => true,
            _ => false,
        }
    }
}

/// Keeps the declarations of an analyzed module, in their order, and drops
/// every other top-level item. Fails with `NotABlock` when the analyzed form
/// is not a block.
pub fn extract_declarations(analyzed: Node, address: &Address) -> (r: Result<Node, Error>)
    ensures
        r is Ok <==> analyzed is Block,
        r is Ok ==> r->Ok_0 is Block && block_body(r->Ok_0) == declarations(block_body(analyzed)),
        r is Ok ==> is_declaration_block(r->Ok_0),
        r is Err ==> r->Err_0.kind == ErrorKind::NotABlock,
{
    let mut body = match analyzed {
        Node::Block { body } => body,
        _ => {
            return Err(
                Error::new(
                    ErrorKind::NotABlock,
                    address.duplicate(),
                    String::from_str("the analyzer returned a node that is not a block."),
                    String::from_str("the module's analyzed form must be a block of items."),
                ),
            );
        },
    };
    let ghost orig = body@;
    let mut kept: Vec<Node> = Vec::new();
    let mut k: usize = 0;
    let total = body.len();
    while body.len() > 0
        invariant
            k <= orig.len(),
            orig.len() == total,
            body@ == orig.skip(k as int),
            kept@ == declarations(orig.take(k as int)),
        decreases body@.len(),
    {
        assert(k < orig.len());
        let n = body.remove(0);
        proof {
            assert(orig.take(k + 1).drop_last() =~= orig.take(k as int));
            assert(orig.take(k + 1).last() == n);
            assert(body@ =~= orig.skip(k + 1));
        }
        if n.is_declaration() {
            kept.push(n);
        }
        k += 1;
    }
    proof {
        assert(orig.take(k as int) =~= orig);
        lemma_declarations_only(orig);
    }
    Ok(Node::Block { body: kept })
}

/// A request to import a module.
pub struct Import {
    /// Where the request was made, for relative paths and diagnostics.
    pub address: Option<Address>,
    /// The module's logical name, possibly dotted (`std.io`), or its path.
    pub name: String,
    /// The name the module's items are known by, if it is given.
    pub full_name: Option<String>,
}

impl Import {
    pub fn new(address: Option<Address>, name: String, full_name: Option<String>) -> (r: Import)
        ensures
            r.address == address,
            r.name@ == name@,
            r.full_name == full_name,
    {
        Import { address, name, full_name }
    }
}

/// The stages that turn a module file into an analyzed tree: reading the
/// file, lexing, parsing and semantic analysis.
pub trait Frontend {
    /// Reads the file at `path` and returns its analyzed tree, or the error of
    /// the first stage that failed.
    fn analyze_file(&mut self, path: &String, import: &Import) -> Result<Node, Error>;
}

/// The location `t` gives for `name`: the path of its first entry with that
/// name, else `name` itself taken as a path.
pub open spec fn location_of(t: Seq<(Seq<char>, Seq<char>)>, name: Seq<char>) -> Seq<char>
    decreases t.len(),
{
    if t.len() == 0 {
        name
    } else if t[0].0 == name {
        t[0].1
    } else {
        location_of(t.drop_first(), name)
    }
}

/// The builtins of `s` that `reg` does not hold yet, in order.
pub open spec fn unregistered(s: Seq<Seq<char>>, reg: Seq<Seq<char>>) -> Seq<Seq<char>>
    decreases s.len(),
{
    if s.len() == 0 {
        Seq::empty()
    } else if reg.contains(s.last()) {
        unregistered(s.drop_last(), reg)
    } else {
        unregistered(s.drop_last(), reg).push(s.last())
    }
}

/// The standard library modules and their files.
pub open spec fn standard_libraries() -> Seq<(Seq<char>, Seq<char>)> {
    seq![
        ("std.io"@, "./libs/std/std_io.wt"@),
        ("std.gc"@, "./libs/std/std_gc.wt"@),
        ("std.errors"@, "./libs/std/std_errors.wt"@),
        ("std.convert"@, "./libs/std/std_convert.wt"@),
        ("std.typeof"@, "./libs/std/std_typeof.wt"@),
        ("std.time"@, "./libs/std/std_time.wt"@),
        ("std.math"@, "./libs/std/std_math.wt"@),
        ("std.random"@, "./libs/std/std_random.wt"@),
        ("std.fs"@, "./libs/std/std_fs.wt"@),
        ("std.system"@, "./libs/std/std_system.wt"@),
    ]
}

/// The modules every program imports.
pub open spec fn standard_builtins() -> Seq<Seq<char>> {
    seq!["./libs/base.wt"@]
}

/// Resolves import requests into declaration blocks, each logical name at
/// most once.
pub struct ImportsResolver {
    imported: Vec<String>,
    libraries: Vec<(String, String)>,
    builtins: Vec<String>,
}

impl ImportsResolver {
    /// The names resolved so far, in order.
    pub closed spec fn registry(&self) -> Seq<Seq<char>> {
        self.imported@.map_values(|s: String| s@)
    }

    /// The alias table: logical names and their files.
    pub closed spec fn aliases(&self) -> Seq<(Seq<char>, Seq<char>)> {
        self.libraries@.map_values(|p: (String, String)| (p.0@, p.1@))
    }

    /// The builtin modules, in order.
    pub closed spec fn builtin_paths(&self) -> Seq<Seq<char>> {
        self.builtins@.map_values(|s: String| s@)
    }

    pub open spec fn wf(&self) -> bool {
        self.builtin_paths().no_duplicates()
    }

    /// A resolver with an empty registry, the standard alias table and the
    /// standard builtins.
    pub fn new() -> (r: ImportsResolver)
        ensures
            r.wf(),
            r.registry() == Seq::<Seq<char>>::empty(),
            r.aliases() == standard_libraries(),
            r.builtin_paths() == standard_builtins(),
    {
        let mut libraries: Vec<(String, String)> = Vec::new();
        libraries.push((String::from_str("std.io"), String::from_str("./libs/std/std_io.wt")));
        libraries.push((String::from_str("std.gc"), String::from_str("./libs/std/std_gc.wt")));
        libraries.push((String::from_str("std.errors"), String::from_str("./libs/std/std_errors.wt")));
        libraries.push((String::from_str("std.convert"), String::from_str("./libs/std/std_convert.wt")));
        libraries.push((String::from_str("std.typeof"), String::from_str("./libs/std/std_typeof.wt")));
        libraries.push((String::from_str("std.time"), String::from_str("./libs/std/std_time.wt")));
        libraries.push((String::from_str("std.math"), String::from_str("./libs/std/std_math.wt")));
        libraries.push((String::from_str("std.random"), String::from_str("./libs/std/std_random.wt")));
        libraries.push((String::from_str("std.fs"), String::from_str("./libs/std/std_fs.wt")));
        libraries.push((String::from_str("std.system"), String::from_str("./libs/std/std_system.wt")));
        let mut builtins: Vec<String> = Vec::new();
        builtins.push(String::from_str("./libs/base.wt"));
        let r = ImportsResolver { imported: Vec::new(), libraries, builtins };
        assert(r.registry() =~= Seq::<Seq<char>>::empty());
        assert(r.aliases() =~= standard_libraries());
        assert(r.builtin_paths() =~= standard_builtins());
        r
    }

    /// Whether `name` has been resolved already.
    pub fn is_imported(&self, name: &String) -> (r: bool)
        ensures
            r == self.registry().contains(name@),
    {
        let mut i: usize = 0;
        while i < self.imported.len()
            invariant
                i <= self.imported@.len(),
                forall|j: int| 0 <= j < i ==> self.imported@[j]@ != name@,
            decreases self.imported@.len() - i,
        {
            if self.imported[i] == *name {
                assert(self.registry()[i as int] == name@);
                return true;
            }
            i += 1;
        }
        assert forall|j: int| 0 <= j < self.registry().len() implies self.registry()[j] != name@ by {
            assert(self.registry()[j] == self.imported@[j]@);
        }
        false
    }

    /// The file that `name` stands for: its entry in the alias table, else
    /// `name` itself.
    pub fn location(&self, name: &String) -> (r: String)
        ensures
            r@ == location_of(self.aliases(), name@),
    {
        let mut i: usize = 0;
        assert(self.aliases().skip(0) =~= self.aliases());
        while i < self.libraries.len()
            invariant
                i <= self.libraries@.len(),
                location_of(self.aliases().skip(i as int), name@) == location_of(self.aliases(), name@),
            decreases self.libraries@.len() - i,
        {
            let ghost rest = self.aliases().skip(i as int);
            assert(rest.drop_first() =~= self.aliases().skip(i + 1));
            assert(rest[0] == (self.libraries@[i as int].0@, self.libraries@[i as int].1@));
            if self.libraries[i].0 == *name {
                return self.libraries[i].1.clone();
            }
            i += 1;
        }
        assert(self.aliases().skip(i as int) =~= Seq::<(Seq<char>, Seq<char>)>::empty());
        name.clone()
    }

    /// Resolves a module: finds its file, has the frontend analyze it, and
    /// keeps its declarations. A failure of the frontend is passed on as it
    /// came.
    pub fn resolve<F: Frontend>(&self, import: &Import, frontend: &mut F) -> (r: Result<Node, Error>)
        ensures
            r is Ok ==> is_declaration_block(r->Ok_0),
    {
        let path = self.location(&import.name);
        let analyzed = frontend.analyze_file(&path, import)?;
        let address = match &import.address {
            Some(a) => a.duplicate(),
            None => Address::new(0, 0, path),
        };
        extract_declarations(analyzed, &address)
    }

    /// Imports a module: resolves it and records its name, unless the name
    /// was resolved before, in which case nothing is done and `None` comes
    /// back.
    pub fn import<F: Frontend>(&mut self, import: &Import, frontend: &mut F) -> (r: Result<Option<Node>, Error>)
        ensures
            final(self).aliases() == old(self).aliases(),
            final(self).builtin_paths() == old(self).builtin_paths(),
            old(self).registry().contains(import.name@) ==> r == Ok::<Option<Node>, Error>(None)
                && final(self).registry() == old(self).registry() && *final(frontend) == *old(frontend),
            !old(self).registry().contains(import.name@) ==> (r is Ok ==> r->Ok_0 is Some
                && is_declaration_block(r->Ok_0->0)
                && final(self).registry() == old(self).registry().push(import.name@)),
            r is Err ==> final(self).registry() == old(self).registry(),
    {
        if self.is_imported(&import.name) {
            return Ok(None);
        }
        let node = self.resolve(import, frontend)?;
        self.imported.push(import.name.clone());
        assert(self.registry() =~= old(self).registry().push(import.name@));
        Ok(Some(node))
    }

    /// Imports every builtin module not resolved yet, in the builtin order,
    /// and returns their declaration blocks. If one of them fails, the
    /// failure comes back and the registry is left as it was, so no builtin
    /// counts as imported without its block having been returned.
    pub fn import_builtins<F: Frontend>(&mut self, frontend: &mut F) -> (r: Result<Vec<Node>, Error>)
        requires
            old(self).wf(),
        ensures
            final(self).wf(),
            final(self).aliases() == old(self).aliases(),
            final(self).builtin_paths() == old(self).builtin_paths(),
            r is Ok ==> final(self).registry() == old(self).registry() + unregistered(
                old(self).builtin_paths(),
                old(self).registry(),
            ),
            r is Ok ==> r->Ok_0@.len() == unregistered(old(self).builtin_paths(), old(self).registry()).len(),
            r is Ok ==> forall|i: int| 0 <= i < r->Ok_0@.len() ==> is_declaration_block(#[trigger] r->Ok_0@[i]),
            r is Err ==> final(self).registry() == old(self).registry(),
            unregistered(old(self).builtin_paths(), old(self).registry()).len() == 0 ==> r is Ok && r->Ok_0@.len() == 0 && final(self).registry() == old(self).registry(),
    {
        let ghost reg0 = self.registry();
        let ghost paths = self.builtin_paths();
        let mut nodes: Vec<Node> = Vec::new();
        let start_len = self.imported.len();
        let mut i: usize = 0;
        while i < self.builtins.len()
            invariant
                i <= paths.len(),
                start_len == reg0.len(),
                paths == old(self).builtin_paths(),
                reg0 == old(self).registry(),
                self.wf(),
                self.builtin_paths() == paths,
                self.aliases() == old(self).aliases(),
                self.registry() == reg0 + unregistered(paths.take(i as int), reg0),
                nodes@.len() == unregistered(paths.take(i as int), reg0).len(),
                forall|j: int| 0 <= j < nodes@.len() ==> is_declaration_block(#[trigger] nodes@[j]),
            decreases paths.len() - i,
        {
            let name = self.builtins[i].clone();
            let ghost cur = self.registry();
            proof {
                assert(paths.take(i + 1).drop_last() =~= paths.take(i as int));
                assert(paths.take(i + 1).last() == name@);
                lemma_unregistered_within(paths.take(i as int), reg0);
                if cur.contains(name@) && !reg0.contains(name@) {
                    let m = choose|m: int| 0 <= m < cur.len() && cur[m] == name@;
                    assert(unregistered(paths.take(i as int), reg0)[m - reg0.len()] == name@);
                    let q = choose|q: int| 0 <= q < i && paths[q] == name@;
                    assert(paths[i as int] == name@);
                }
                if reg0.contains(name@) {
                    let m = choose|m: int| 0 <= m < reg0.len() && reg0[m] == name@;
                    assert(cur[m] == name@);
                }
                lemma_unregistered_empty(paths, reg0);
                assert(paths[i as int] == name@);
            }
            if !self.is_imported(&name) {
                let request = Import::new(None, name, None);
                match self.import(&request, frontend) {
                    Ok(Some(node)) => {
                        nodes.push(node);
                    },
                    Ok(None) => {},
                    Err(e) => {
                        let ghost full = self.imported@;
                        self.imported.truncate(start_len);
                        proof {
                            assert forall|k: int| 0 <= k < reg0.len() implies self.registry()[k] == reg0[k] by {
                                assert(self.imported@[k] == full[k]);
                                assert(full.map_values(|s: String| s@)[k] == reg0[k]);
                            }
                            assert(self.registry() =~= reg0);
                        }
                        return Err(e);
                    },
                }
                proof {
                    assert(self.registry() =~= reg0 + unregistered(paths.take(i + 1), reg0));
                }
            }
            i += 1;
        }
        proof {
            assert(paths.take(i as int) =~= paths);
            if unregistered(paths, reg0).len() == 0 {
                assert(self.registry() =~= reg0);
            }
        }
        Ok(nodes)
    }
}

/// A successful import of a name that was not registered leaves it in the
/// registry, which is the condition under which `import` of that name
/// returns `None` and changes nothing.
pub proof fn import_is_idempotent(first: ImportsResolver, second: ImportsResolver, name: Seq<char>)
    requires
        !first.registry().contains(name),
        second.registry() == first.registry().push(name),
    ensures
        second.registry().contains(name),
{
    assert(second.registry()[first.registry().len() as int] == name);
}

/// After `import_builtins` has succeeded once, no builtin is left
/// unregistered, so a second call returns an empty sequence.
pub proof fn builtins_import_once(first: ImportsResolver, second: ImportsResolver)
    requires
        second.builtin_paths() == first.builtin_paths(),
        second.registry() == first.registry() + unregistered(first.builtin_paths(), first.registry()),
    ensures
        unregistered(second.builtin_paths(), second.registry()).len() == 0,
{
    let s = first.builtin_paths();
    let reg = first.registry();
    let after = second.registry();
    lemma_registered_or_pending(s, reg);
    assert forall|q: int| 0 <= q < s.len() implies after.contains(#[trigger] s[q]) by {
        if reg.contains(s[q]) {
            let m = choose|m: int| 0 <= m < reg.len() && reg[m] == s[q];
            assert(after[m] == s[q]);
        } else {
            let u = unregistered(s, reg);
            let m = choose|m: int| 0 <= m < u.len() && u[m] == s[q];
            assert(after[reg.len() + m] == s[q]);
        }
    }
    lemma_all_registered(s, after);
}

proof fn lemma_registered_or_pending(s: Seq<Seq<char>>, reg: Seq<Seq<char>>)
    ensures
        forall|q: int| 0 <= q < s.len() ==> reg.contains(#[trigger] s[q]) || unregistered(s, reg).contains(s[q]),
    decreases s.len(),
{
    if s.len() > 0 {
        lemma_registered_or_pending(s.drop_last(), reg);
        let u = unregistered(s.drop_last(), reg);
        assert forall|q: int| 0 <= q < s.len() implies reg.contains(#[trigger] s[q]) || unregistered(s, reg).contains(s[q]) by {
            if q < s.len() - 1 {
                assert(s.drop_last()[q] == s[q]);
                if u.contains(s[q]) {
                    let m = choose|m: int| 0 <= m < u.len() && u[m] == s[q];
                    assert(unregistered(s, reg)[m] == s[q]);
                }
            } else if !reg.contains(s[q]) {
                assert(unregistered(s, reg)[u.len() as int] == s[q]);
            }
        }
    }
}

proof fn lemma_all_registered(s: Seq<Seq<char>>, reg: Seq<Seq<char>>)
    requires
        forall|q: int| 0 <= q < s.len() ==> reg.contains(#[trigger] s[q]),
    ensures
        unregistered(s, reg).len() == 0,
    decreases s.len(),
{
    if s.len() > 0 {
        assert forall|q: int| 0 <= q < s.len() - 1 implies reg.contains(#[trigger] s.drop_last()[q]) by {
            assert(s.drop_last()[q] == s[q]);
        }
        lemma_all_registered(s.drop_last(), reg);
        assert(reg.contains(s[s.len() - 1]));
    }
}

proof fn lemma_unregistered_empty(s: Seq<Seq<char>>, reg: Seq<Seq<char>>)
    ensures
        unregistered(s, reg).len() == 0 ==> forall|q: int| 0 <= q < s.len() ==> reg.contains(#[trigger] s[q]),
    decreases s.len(),
{
    if s.len() > 0 {
        lemma_unregistered_empty(s.drop_last(), reg);
        if unregistered(s, reg).len() == 0 {
            assert forall|q: int| 0 <= q < s.len() implies reg.contains(#[trigger] s[q]) by {
                if q < s.len() - 1 {
                    assert(s.drop_last()[q] == s[q]);
                }
            }
        }
    }
}

/// Every name `unregistered` yields comes from `s`, at an index no later
/// than its own position allows.
proof fn lemma_unregistered_within(s: Seq<Seq<char>>, reg: Seq<Seq<char>>)
    ensures
        forall|m: int|
            0 <= m < unregistered(s, reg).len() ==> exists|q: int|
                0 <= q < s.len() && s[q] == #[trigger] unregistered(s, reg)[m],
    decreases s.len(),
{
    if s.len() > 0 {
        lemma_unregistered_within(s.drop_last(), reg);
        let u = unregistered(s.drop_last(), reg);
        assert forall|m: int| 0 <= m < unregistered(s, reg).len() implies exists|q: int|
            0 <= q < s.len() && s[q] == #[trigger] unregistered(s, reg)[m] by {
            if m < u.len() {
                let q = choose|q: int| 0 <= q < s.len() - 1 && s.drop_last()[q] == u[m];
                assert(s[q] == unregistered(s, reg)[m]);
            } else {
                assert(s[s.len() - 1] == unregistered(s, reg)[m]);
            }
        }
    }
}

} // verus!
