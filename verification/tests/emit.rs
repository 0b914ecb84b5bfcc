//! The structural Verilog writer.

use vyges_vt_swap::emit::{to_verilog, Instance, Netlist};

fn inst(name: &str, cell: &str, conns: &[(&str, &str)]) -> Instance {
    Instance {
        name: name.to_string(),
        cell: cell.to_string(),
        conns: conns.iter().map(|(p, n)| (p.to_string(), n.to_string())).collect(),
    }
}

fn two_inverters(cell: &str) -> Netlist {
    Netlist {
        module: "top".to_string(),
        inputs: vec!["a".to_string()],
        outputs: vec!["y".to_string()],
        insts: vec![
            inst("u1", cell, &[("A", "a"), ("Y", "n1")]),
            inst("u2", cell, &[("A", "n1"), ("Y", "y")]),
        ],
    }
}

#[test]
fn verilog_of_two_inverters() {
    assert_eq!(
        to_verilog(&two_inverters("INV_HVT")),
        "module top ( a, y );\n  input a;\n  output y;\n  wire n1;\n  INV_HVT u1 ( .A(a), .Y(n1) );\n  INV_HVT u2 ( .A(n1), .Y(y) );\nendmodule\n"
    );
}

#[test]
fn verilog_wires_first_seen_deduped() {
    let nl = Netlist {
        module: "m".to_string(),
        inputs: vec!["a".to_string(), "b".to_string()],
        outputs: vec!["z".to_string()],
        insts: vec![
            inst("g1", "NAND2", &[("A", "a"), ("B", "n2"), ("Y", "n1")]),
            inst("g2", "INV", &[("A", "n1"), ("Y", "n2")]),
            inst("g3", "NAND2", &[("A", "n1"), ("B", "b"), ("Y", "z")]),
        ],
    };
    assert_eq!(
        to_verilog(&nl),
        "module m ( a, b, z );\n  input a, b;\n  output z;\n  wire n2, n1;\n  NAND2 g1 ( .A(a), .B(n2), .Y(n1) );\n  INV g2 ( .A(n1), .Y(n2) );\n  NAND2 g3 ( .A(n1), .B(b), .Y(z) );\nendmodule\n"
    );
}

#[test]
fn verilog_empty_sections_are_omitted() {
    let nl = Netlist { module: "e".to_string(), inputs: vec![], outputs: vec![], insts: vec![] };
    assert_eq!(to_verilog(&nl), "module e (  );\nendmodule\n");
    let nl = Netlist {
        module: "p".to_string(),
        inputs: vec!["a".to_string()],
        outputs: vec![],
        insts: vec![inst("t", "TIE", &[]), inst("b", "BUF", &[("A", "a")])],
    };
    assert_eq!(to_verilog(&nl), "module p ( a );\n  input a;\n  TIE t (  );\n  BUF b ( .A(a) );\nendmodule\n");
}
