//! Emit a structural Verilog netlist (the resized design): module header, `input` / `output`
//! / `wire` declarations, then one instance line per cell.
use vstd::prelude::*;

use crate::text::strs;

verus! {

/// A cell instance: its name, its cell, and its `(pin, net)` connections in order.
pub struct Instance {
    pub name: String,
    pub cell: String,
    pub conns: Vec<(String, String)>,
}

/// A flat gate-level netlist.
pub struct Netlist {
    pub module: String,
    pub inputs: Vec<String>,
    pub outputs: Vec<String>,
    pub insts: Vec<Instance>,
}

/// The characters of an [`Instance`].
pub struct InstanceView {
    pub name: Seq<char>,
    pub cell: Seq<char>,
    pub conns: Seq<(Seq<char>, Seq<char>)>,
}

/// The characters of a [`Netlist`].
pub struct NetlistView {
    pub module: Seq<char>,
    pub inputs: Seq<Seq<char>>,
    pub outputs: Seq<Seq<char>>,
    pub insts: Seq<InstanceView>,
}

/// The characters of a connection list.
pub open spec fn conns_view(c: Seq<(String, String)>) -> Seq<(Seq<char>, Seq<char>)> {
    c.map_values(|p: (String, String)| (p.0@, p.1@))
}

impl View for Instance {
    type V = InstanceView;

    open spec fn view(&self) -> InstanceView {
        InstanceView { name: self.name@, cell: self.cell@, conns: conns_view(self.conns@) }
    }
}

/// The characters of a sequence of instances.
pub open spec fn instances_view(v: Seq<Instance>) -> Seq<InstanceView> {
    v.map_values(|i: Instance| i@)
}

impl View for Netlist {
    type V = NetlistView;

    open spec fn view(&self) -> NetlistView {
        NetlistView {
            module: self.module@,
            inputs: strs(self.inputs@),
            outputs: strs(self.outputs@),
            insts: instances_view(self.insts@),
        }
    }
}

/// `xs` joined with `sep` between neighbours (`[T]::join`).
pub open spec fn join(xs: Seq<Seq<char>>, sep: Seq<char>) -> Seq<char>
    decreases xs.len(),
{
    if xs.len() == 0 {
        Seq::empty()
    } else if xs.len() == 1 {
        xs[0]
    } else {
        join(xs.drop_last(), sep) + sep + xs.last()
    }
}

/// Every net that an instance connection names, instance by instance, pin by pin.
pub open spec fn nets(insts: Seq<InstanceView>) -> Seq<Seq<char>>
    decreases insts.len(),
{
    if insts.len() == 0 {
        Seq::empty()
    } else {
        nets(insts.drop_last()) + insts.last().conns.map_values(|c: (Seq<char>, Seq<char>)| c.1)
    }
}

/// The nets of `ns` that are not in `ports`, each once, in first-seen order.
pub open spec fn fresh(ns: Seq<Seq<char>>, ports: Seq<Seq<char>>) -> Seq<Seq<char>>
    decreases ns.len(),
{
    if ns.len() == 0 {
        Seq::empty()
    } else {
        let r = fresh(ns.drop_last(), ports);
        if ports.contains(ns.last()) || r.contains(ns.last()) {
            r
        } else {
            r.push(ns.last())
        }
    }
}

/// The primary ports: inputs, then outputs.
pub open spec fn ports(nl: NetlistView) -> Seq<Seq<char>> {
    nl.inputs + nl.outputs
}

/// The wires: the nets that instance connections reference and that are not primary ports,
/// in first-seen order, each once.
pub open spec fn wires(nl: NetlistView) -> Seq<Seq<char>> {
    fresh(nets(nl.insts), ports(nl))
}

/// A declaration line (`  input a, b;`, with `lead` the text before the names), or nothing
/// when there is nothing to declare.
pub open spec fn decl(lead: Seq<char>, names: Seq<Seq<char>>) -> Seq<char> {
    if names.len() == 0 {
        Seq::empty()
    } else {
        lead + join(names, ", "@) + ";\n"@
    }
}

/// A connection: `.<pin>(<net>)`.
pub open spec fn conn_text(c: (Seq<char>, Seq<char>)) -> Seq<char> {
    "."@ + c.0 + "("@ + c.1 + ")"@
}

/// An instance line: `  <cell> <inst> ( .<pin>(<net>), ... );`.
pub open spec fn inst_line(i: InstanceView) -> Seq<char> {
    "  "@ + i.cell + " "@ + i.name + " ( "@ + join(
        i.conns.map_values(|c: (Seq<char>, Seq<char>)| conn_text(c)),
        ", "@,
    ) + " );\n"@
}

/// The instance lines, one per instance, in order.
pub open spec fn inst_lines(insts: Seq<InstanceView>) -> Seq<char>
    decreases insts.len(),
{
    if insts.len() == 0 {
        Seq::empty()
    } else {
        inst_lines(insts.drop_last()) + inst_line(insts.last())
    }
}

/// The structural Verilog text of a netlist.
pub open spec fn verilog(nl: NetlistView) -> Seq<char> {
    "module "@ + nl.module + " ( "@ + join(ports(nl), ", "@) + " );\n"@ + decl("  input "@, nl.inputs)
        + decl("  output "@, nl.outputs) + decl("  wire "@, wires(nl)) + inst_lines(nl.insts)
        + "endmodule\n"@
}

/// Appends `xs` joined with `sep` to `out`.
fn push_joined(out: &mut String, xs: &Vec<String>, sep: &str)
    ensures
        final(out)@ == old(out)@ + join(strs(xs@), sep@),
{
    let ghost start = out@;
    let ghost ss = strs(xs@);
    let mut k: usize = 0;
    assert(ss.take(0) =~= Seq::<Seq<char>>::empty());
    assert(out@ =~= start + join(ss.take(0), sep@));
    while k < xs.len()
        invariant
            k <= xs.len(),
            ss == strs(xs@),
            out@ == start + join(ss.take(k as int), sep@),
        decreases xs.len() - k,
    {
        assert(ss.take(k + 1).drop_last() =~= ss.take(k as int));
        if k > 0 {
            out.append(sep);
        }
        out.append(xs[k].as_str());
        proof {
            if k == 0 {
                assert(ss.take(1).len() == 1);
                assert(ss.take(1)[0] == xs@[0]@);
            }
        }
        k = k + 1;
    }
    assert(ss.take(xs.len() as int) =~= ss);
}

/// Whether `v` holds a string equal to `x`.
fn holds(v: &Vec<String>, x: &String) -> (b: bool)
    ensures
        b == strs(v@).contains(x@),
{
    let mut k: usize = 0;
    while k < v.len()
        invariant
            k <= v.len(),
            forall|j: int| 0 <= j < k ==> (#[trigger] v@[j])@ != x@,
        decreases v.len() - k,
    {
        if v[k] == *x {
            assert(strs(v@)[k as int] == x@);
            return true;
        }
        k = k + 1;
    }
    assert forall|j: int| 0 <= j < v.len() implies strs(v@)[j] != x@ by {
        assert(strs(v@)[j] == v@[j]@);
    }
    false
}

/// The wires of `nl`, as [`wires`] states.
fn wire_list(nl: &Netlist) -> (r: Vec<String>)
    ensures
        strs(r@) == wires(nl@),
{
    let ghost ps = ports(nl@);
    let ghost is = instances_view(nl.insts@);
    let mut r: Vec<String> = Vec::new();
    let mut k: usize = 0;
    assert(is.take(0) =~= Seq::<InstanceView>::empty());
    assert(strs(r@) =~= fresh(nets(is.take(0)), ps));
    while k < nl.insts.len()
        invariant
            k <= nl.insts.len(),
            ps == ports(nl@),
            is == instances_view(nl.insts@),
            strs(r@) == fresh(nets(is.take(k as int)), ps),
        decreases nl.insts.len() - k,
    {
        let inst = &nl.insts[k];
        let ghost before = nets(is.take(k as int));
        let ghost cn = inst@.conns.map_values(|c: (Seq<char>, Seq<char>)| c.1);
        assert(is.take(k + 1).drop_last() =~= is.take(k as int));
        assert(is.take(k + 1).last() == inst@);
        let mut j: usize = 0;
        assert(before + cn.take(0) =~= before);
        while j < inst.conns.len()
            invariant
                k < nl.insts.len(),
                inst == &nl.insts[k as int],
                j <= inst.conns.len(),
                ps == ports(nl@),
                cn == inst@.conns.map_values(|c: (Seq<char>, Seq<char>)| c.1),
                strs(r@) == fresh(before + cn.take(j as int), ps),
            decreases inst.conns.len() - j,
        {
            let net = &inst.conns[j].1;
            let ghost ns = before + cn.take(j + 1);
            assert(ns.drop_last() =~= before + cn.take(j as int));
            assert(ns.last() == net@);
            let is_port = holds(&nl.inputs, net) || holds(&nl.outputs, net);
            assert(is_port == ps.contains(net@)) by {
                assert(ps =~= strs(nl.inputs@) + strs(nl.outputs@));
                if strs(nl.inputs@).contains(net@) {
                    let i = choose|i: int| 0 <= i < strs(nl.inputs@).len() && strs(nl.inputs@)[i] == net@;
                    assert(ps[i] == net@);
                }
                if strs(nl.outputs@).contains(net@) {
                    let i = choose|i: int| 0 <= i < strs(nl.outputs@).len() && strs(nl.outputs@)[i] == net@;
                    assert(ps[strs(nl.inputs@).len() + i] == net@);
                }
                if ps.contains(net@) {
                    let i = choose|i: int| 0 <= i < ps.len() && ps[i] == net@;
                    if i < strs(nl.inputs@).len() {
                        assert(strs(nl.inputs@)[i] == net@);
                    } else {
                        assert(strs(nl.outputs@)[i - strs(nl.inputs@).len()] == net@);
                    }
                }
            }
            if !is_port && !holds(&r, net) {
                let w = net.clone();
                proof {
                    assert(strs(r@.push(w)) =~= strs(r@).push(w@));
                }
                r.push(w);
            }
            j = j + 1;
        }
        assert(cn.take(inst.conns.len() as int) =~= cn);
        k = k + 1;
    }
    assert(is.take(nl.insts.len() as int) =~= is);
    r
}

/// Render `nl` as structural Verilog: module header, `input`/`output`/`wire` declarations,
/// then one instance line per cell (`<cell> <inst> ( .<pin>(<net>), ... );`).
pub fn to_verilog(nl: &Netlist) -> (s: String)
    ensures
        s@ == verilog(nl@),
{
    let mut s = String::new();
    s.append("module ");
    s.append(nl.module.as_str());
    s.append(" ( ");
    let mut ports: Vec<String> = Vec::new();
    let mut k: usize = 0;
    while k < nl.inputs.len()
        invariant
            k <= nl.inputs.len(),
            strs(ports@) == strs(nl.inputs@).take(k as int),
        decreases nl.inputs.len() - k,
    {
        let p = nl.inputs[k].clone();
        proof {
            assert(strs(nl.inputs@)[k as int] == p@);
            assert(strs(nl.inputs@).take(k + 1) =~= strs(nl.inputs@).take(k as int).push(p@));
            assert(strs(ports@.push(p)) =~= strs(ports@).push(p@));
        }
        ports.push(p);
        k = k + 1;
    }
    k = 0;
    while k < nl.outputs.len()
        invariant
            k <= nl.outputs.len(),
            strs(ports@) == strs(nl.inputs@) + strs(nl.outputs@).take(k as int),
        decreases nl.outputs.len() - k,
    {
        let p = nl.outputs[k].clone();
        proof {
            assert(strs(nl.outputs@)[k as int] == p@);
            assert(strs(nl.outputs@).take(k + 1) =~= strs(nl.outputs@).take(k as int).push(p@));
            assert(strs(ports@.push(p)) =~= strs(ports@).push(p@));
            assert(strs(nl.inputs@) + strs(nl.outputs@).take(k + 1) =~= (strs(nl.inputs@)
                + strs(nl.outputs@).take(k as int)).push(p@));
        }
        ports.push(p);
        k = k + 1;
    }
    assert(strs(nl.inputs@).take(nl.inputs.len() as int) =~= strs(nl.inputs@));
    assert(strs(nl.outputs@).take(nl.outputs.len() as int) =~= strs(nl.outputs@));
    push_joined(&mut s, &ports, ", ");
    s.append(" );\n");
    let ghost head = s@;
    if nl.inputs.len() > 0 {
        s.append("  input ");
        push_joined(&mut s, &nl.inputs, ", ");
        s.append(";\n");
    }
    assert(s@ == head + decl("  input "@, nl@.inputs));
    let ghost h2 = s@;
    if nl.outputs.len() > 0 {
        s.append("  output ");
        push_joined(&mut s, &nl.outputs, ", ");
        s.append(";\n");
    }
    assert(s@ == h2 + decl("  output "@, nl@.outputs));
    let ghost h3 = s@;
    let ws = wire_list(nl);
    if ws.len() > 0 {
        s.append("  wire ");
        push_joined(&mut s, &ws, ", ");
        s.append(";\n");
    }
    assert(s@ == h3 + decl("  wire "@, wires(nl@)));
    let ghost h4 = s@;
    let ghost is = instances_view(nl.insts@);
    k = 0;
    assert(is.take(0) =~= Seq::<InstanceView>::empty());
    assert(s@ =~= h4 + inst_lines(is.take(0)));
    while k < nl.insts.len()
        invariant
            k <= nl.insts.len(),
            is == instances_view(nl.insts@),
            s@ == h4 + inst_lines(is.take(k as int)),
        decreases nl.insts.len() - k,
    {
        let inst = &nl.insts[k];
        let ghost before = s@;
        s.append("  ");
        s.append(inst.cell.as_str());
        s.append(" ");
        s.append(inst.name.as_str());
        s.append(" ( ");
        let mut conns: Vec<String> = Vec::new();
        let ghost cs = inst@.conns.map_values(|c: (Seq<char>, Seq<char>)| conn_text(c));
        let mut j: usize = 0;
        while j < inst.conns.len()
            invariant
                k < nl.insts.len(),
                inst == &nl.insts[k as int],
                j <= inst.conns.len(),
                cs == inst@.conns.map_values(|c: (Seq<char>, Seq<char>)| conn_text(c)),
                strs(conns@) == cs.take(j as int),
            decreases inst.conns.len() - j,
        {
            let mut c = String::from_str(".");
            c.append(inst.conns[j].0.as_str());
            c.append("(");
            c.append(inst.conns[j].1.as_str());
            c.append(")");
            proof {
                assert(c@ == cs[j as int]);
                assert(cs.take(j + 1) =~= cs.take(j as int).push(c@));
                assert(strs(conns@.push(c)) =~= strs(conns@).push(c@));
            }
            conns.push(c);
            j = j + 1;
        }
        assert(cs.take(inst.conns.len() as int) =~= cs);
        push_joined(&mut s, &conns, ", ");
        s.append(" );\n");
        proof {
            assert(is.take(k + 1).drop_last() =~= is.take(k as int));
            assert(is.take(k + 1).last() == inst@);
            assert(s@ =~= before + inst_line(inst@));
        }
        k = k + 1;
    }
    assert(is.take(nl.insts.len() as int) =~= is);
    s.append("endmodule\n");
    proof {
        assert(s@ =~= verilog(nl@));
    }
    s
}

proof fn lemma_fresh(ns: Seq<Seq<char>>, ports: Seq<Seq<char>>)
    ensures
        forall|w: Seq<char>| #[trigger]
            fresh(ns, ports).contains(w) <==> (ns.contains(w) && !ports.contains(w)),
        fresh(ns, ports).no_duplicates(),
    decreases ns.len(),
{
    if ns.len() > 0 {
        let r = fresh(ns.drop_last(), ports);
        lemma_fresh(ns.drop_last(), ports);
        assert forall|w: Seq<char>| ns.contains(w) <==> (ns.drop_last().contains(w) || w
            == ns.last()) by {
            if ns.contains(w) {
                let i = choose|i: int| 0 <= i < ns.len() && ns[i] == w;
                if i < ns.len() - 1 {
                    assert(ns.drop_last()[i] == w);
                }
            }
            if ns.drop_last().contains(w) {
                let i = choose|i: int| 0 <= i < ns.drop_last().len() && ns.drop_last()[i] == w;
                assert(ns[i] == w);
            }
            if w == ns.last() {
                assert(ns[ns.len() - 1] == w);
            }
        }
        if !(ports.contains(ns.last()) || r.contains(ns.last())) {
            let x = ns.last();
            assert forall|w: Seq<char>| r.push(x).contains(w) <==> (r.contains(w) || w == x) by {
                if r.push(x).contains(w) {
                    let i = choose|i: int| 0 <= i < r.push(x).len() && r.push(x)[i] == w;
                    if i < r.len() {
                        assert(r[i] == w);
                    }
                }
                if r.contains(w) {
                    let i = choose|i: int| 0 <= i < r.len() && r[i] == w;
                    assert(r.push(x)[i] == w);
                }
                if w == x {
                    assert(r.push(x)[r.len() as int] == w);
                }
            }
            assert forall|i: int, j: int|
                0 <= i < r.push(x).len() && 0 <= j < r.push(x).len() && i != j implies r.push(
                x,
            )[i] != r.push(x)[j] by {
                if i < r.len() && j < r.len() {
                    assert(r.push(x)[i] == r[i] && r.push(x)[j] == r[j]);
                } else if i < r.len() {
                    assert(r.push(x)[i] == r[i]);
                } else if j < r.len() {
                    assert(r.push(x)[j] == r[j]);
                }
            }
        }
        assert forall|w: Seq<char>| #[trigger]
            fresh(ns, ports).contains(w) <==> (ns.contains(w) && !ports.contains(w)) by {
            assert(ns.contains(w) <==> (ns.drop_last().contains(w) || w == ns.last()));
            assert(r.contains(w) <==> (ns.drop_last().contains(w) && !ports.contains(w)));
        }
    } else {
        assert forall|w: Seq<char>| #[trigger]
            fresh(ns, ports).contains(w) <==> (ns.contains(w) && !ports.contains(w)) by {
            if ns.contains(w) {
                let i = choose|i: int| 0 <= i < ns.len() && ns[i] == w;
            }
        }
    }
}

/// The `wire` declaration lists exactly the nets that instance connections reference and
/// that are not primary ports, each once.
pub proof fn lemma_wires(nl: NetlistView)
    ensures
        forall|w: Seq<char>| #[trigger]
            wires(nl).contains(w) <==> (nets(nl.insts).contains(w) && !ports(nl).contains(w)),
        wires(nl).no_duplicates(),
{
    lemma_fresh(nets(nl.insts), ports(nl));
}

/// Each name of `xs` stands somewhere in `join(xs, sep)` as a run of characters.
proof fn lemma_join_holds(xs: Seq<Seq<char>>, sep: Seq<char>, k: int)
    requires
        0 <= k < xs.len(),
    ensures
        exists|i: int|
            0 <= i && i + xs[k].len() <= join(xs, sep).len() && #[trigger] join(xs, sep).subrange(
                i,
                i + xs[k].len(),
            ) == xs[k],
    decreases xs.len(),
{
    let j = join(xs, sep);
    if xs.len() == 1 {
        let i: int = 0;
        assert(j.subrange(i, i + xs[k].len()) =~= xs[k]);
    } else if k == xs.len() - 1 {
        let a = join(xs.drop_last(), sep) + sep;
        let i: int = a.len() as int;
        assert(j.subrange(i, i + xs[k].len()) =~= xs[k]);
    } else {
        let d = xs.drop_last();
        assert(d[k] == xs[k]);
        lemma_join_holds(d, sep, k);
        let i = choose|i: int|
            0 <= i && i + d[k].len() <= join(d, sep).len() && #[trigger] join(d, sep).subrange(
                i,
                i + d[k].len(),
            ) == d[k];
        assert(j.subrange(i, i + xs[k].len()) =~= join(d, sep).subrange(i, i + d[k].len()));
    }
}

/// Every primary port is declared with its direction: the text opens with the module line,
/// which lists the inputs and then the outputs, followed at once by the line
/// `  input <inputs>;` and the line `  output <outputs>;`, each naming all its ports in
/// order, separated by `, ` (a line is left out only when it would name no port).
pub proof fn lemma_port_declarations(nl: NetlistView)
    ensures
        ({
            let head = "module "@ + nl.module + " ( "@ + join(nl.inputs + nl.outputs, ", "@)
                + " );\n"@;
            let ins = if nl.inputs.len() == 0 {
                Seq::<char>::empty()
            } else {
                "  input "@ + join(nl.inputs, ", "@) + ";\n"@
            };
            let outs = if nl.outputs.len() == 0 {
                Seq::<char>::empty()
            } else {
                "  output "@ + join(nl.outputs, ", "@) + ";\n"@
            };
            let start = head + ins + outs;
            start.len() <= verilog(nl).len() && verilog(nl).subrange(0, start.len() as int) == start
        }),
{
    let head = "module "@ + nl.module + " ( "@ + join(nl.inputs + nl.outputs, ", "@) + " );\n"@;
    let start = head + decl("  input "@, nl.inputs) + decl("  output "@, nl.outputs);
    let rest = decl("  wire "@, wires(nl)) + inst_lines(nl.insts) + "endmodule\n"@;
    assert(verilog(nl) =~= start + rest);
    assert((start + rest).subrange(0, start.len() as int) =~= start);
}

/// Each input is named on the `input` line, and each output on the `output` line.
pub proof fn lemma_each_port_declared(nl: NetlistView, k: int)
    ensures
        0 <= k < nl.inputs.len() ==> exists|i: int|
            0 <= i && i + nl.inputs[k].len() <= join(nl.inputs, ", "@).len() && #[trigger] join(
                nl.inputs,
                ", "@,
            ).subrange(i, i + nl.inputs[k].len()) == nl.inputs[k],
        0 <= k < nl.outputs.len() ==> exists|i: int|
            0 <= i && i + nl.outputs[k].len() <= join(nl.outputs, ", "@).len() && #[trigger] join(
                nl.outputs,
                ", "@,
            ).subrange(i, i + nl.outputs[k].len()) == nl.outputs[k],
{
    if 0 <= k < nl.inputs.len() {
        lemma_join_holds(nl.inputs, ", "@, k);
    }
    if 0 <= k < nl.outputs.len() {
        lemma_join_holds(nl.outputs, ", "@, k);
    }
}

} // verus!
