use huffcode::bstree::{Bstree, BstreeNode};

#[test]
fn test_insert_and_find() {
    // init and insert
    let mut root = Some(BstreeNode::new(10));
    BstreeNode::insert(&mut root, 15);
    BstreeNode::insert(&mut root, 5);
    BstreeNode::insert(&mut root, 3);
    BstreeNode::insert(&mut root, 7);
    BstreeNode::insert(&mut root, 12);
    BstreeNode::insert(&mut root, 18);

    assert!(BstreeNode::in_sub_tree(&root, &10));
    assert!(BstreeNode::in_sub_tree(&root, &15));
    assert!(BstreeNode::in_sub_tree(&root, &5));
    assert!(BstreeNode::in_sub_tree(&root, &3));
    assert!(BstreeNode::in_sub_tree(&root, &7));
    assert!(BstreeNode::in_sub_tree(&root, &12));
    assert!(BstreeNode::in_sub_tree(&root, &18));
    assert!(!BstreeNode::in_sub_tree(&root, &10086));

    // delete
    assert!(BstreeNode::delete(&mut root, &10));
    assert!(!BstreeNode::delete(&mut root, &7890));

    assert!(BstreeNode::in_sub_tree(&root, &15));
    assert!(BstreeNode::in_sub_tree(&root, &5));
    assert!(BstreeNode::in_sub_tree(&root, &3));
    assert!(BstreeNode::in_sub_tree(&root, &7));
    assert!(BstreeNode::in_sub_tree(&root, &12));
    assert!(BstreeNode::in_sub_tree(&root, &18));

    {
        let output = BstreeNode::print_sub_tree(root.as_ref().unwrap(), 0, "root");
        let lines: Vec<&str> = vec![
            "root: 7",
            "\\__ left: 5",
            "    \\__ left: 3",
            "        \\__ left: NONE",
            "        \\__ right: NONE",
            "    \\__ right: NONE",
            "\\__ right: 15",
            "    \\__ left: 12",
            "        \\__ left: NONE",
            "        \\__ right: NONE",
            "    \\__ right: 18",
            "        \\__ left: NONE",
            "        \\__ right: NONE",
        ];
        let expected = lines.join("\n") + "\n";
        assert_eq!(output, expected);
    }

    //  ====================================================

    // init and insert
    let mut bstree: Bstree<i32> = Bstree::new();
    bstree.insert(10);
    bstree.insert(15);
    bstree.insert(5);
    bstree.insert(3);
    bstree.insert(7);
    bstree.insert(12);
    bstree.insert(18);

    assert!(bstree.exist(&10));
    assert!(bstree.exist(&15));
    assert!(bstree.exist(&5));
    assert!(bstree.exist(&3));
    assert!(bstree.exist(&7));
    assert!(bstree.exist(&12));
    assert!(bstree.exist(&18));
    assert!(!bstree.exist(&10086));

    // delete
    assert!(bstree.delete(&10));

    assert!(bstree.exist(&15));
    assert!(bstree.exist(&5));
    assert!(bstree.exist(&3));
    assert!(bstree.exist(&7));
    assert!(bstree.exist(&12));
    assert!(bstree.exist(&18));
}

#[test]
fn test_string_bst() {
    let mut bstree: Bstree<String> = Bstree::new();
    bstree.insert("apple".to_string());
    bstree.insert("banana".to_string());
    bstree.insert("cherry".to_string());
    bstree.insert("date".to_string());

    assert!(bstree.exist(&"apple".to_string()));
    assert!(bstree.exist(&"banana".to_string()));
    assert!(!bstree.exist(&"fig".to_string()));

    bstree.delete(&"banana".to_string());
    assert!(!bstree.exist(&"banana".to_string()));
    assert!(bstree.exist(&"apple".to_string()));
}

#[derive(Debug, PartialEq, Eq, PartialOrd, Ord)]
struct User {
    id: u32,
    name: String,
}

#[test]
fn test_struct_bst() {
    let mut bstree = Bstree::new();
    let u1 = User {
        id: 1,
        name: "Alice".to_string(),
    };
    let u2 = User {
        id: 2,
        name: "Bob".to_string(),
    };
    let u3 = User {
        id: 3,
        name: "Charlie".to_string(),
    };

    bstree.insert(u2);
    bstree.insert(u1);
    bstree.insert(u3);

    assert!(bstree.exist(&User {
        id: 1,
        name: "Alice".to_string()
    }));
    assert!(!bstree.exist(&User {
        id: 4,
        name: "Dave".to_string()
    }));
}

#[test]
fn test_complex_tree_structure() {
    let mut bstree = Bstree::new();
    // Insert in a way that creates a specific structure
    //      50
    //    /    \
    //   30     70
    //  /  \   /  \
    // 20  40 60  80
    let values = vec![50, 30, 70, 20, 40, 60, 80];
    for &v in &values {
        bstree.insert(v);
    }

    // Verify all exist
    for &v in &values {
        assert!(bstree.exist(&v));
    }

    // Delete a leaf
    bstree.delete(&20);
    assert!(!bstree.exist(&20));

    // Delete a node with one child (let's add one first)
    bstree.insert(90); // 80 -> 90
    bstree.delete(&80);
    assert!(!bstree.exist(&80));
    assert!(bstree.exist(&90));

    // Delete a node with two children
    // Let's re-insert 20
    bstree.insert(20);
    // Now 30 has 20 and 40.
    bstree.delete(&30);
    assert!(!bstree.exist(&30));
    // 30 should be replaced by max of left (20).
    assert!(bstree.exist(&20));
    assert!(bstree.exist(&40));

    // Delete root (50)
    bstree.delete(&50);
    assert!(!bstree.exist(&50));
    assert!(bstree.exist(&40));
    assert!(bstree.exist(&20));
    assert!(bstree.exist(&70));
    assert!(bstree.exist(&60));
    assert!(bstree.exist(&90));
}

#[test]
fn test_render_empty_and_negative() {
    let empty: Bstree<i32> = Bstree::new();
    assert_eq!(empty.render(), "NONE\n");

    let mut t: Bstree<i32> = Bstree::new();
    t.insert(-3);
    let out = t.render();
    assert_eq!(
        out,
        "root: -3\n\\__ left: NONE\n\\__ right: NONE\n"
    );
}
