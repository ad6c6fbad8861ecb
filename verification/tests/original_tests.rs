use engine::board::dis_to_hex_of_hexagon;
use engine::hex::{Axial, Cube, HDir, OFFSETS};
use engine::mesh::SmallMesh;

#[test]
fn what() {
    let k = Cube::from_arr(OFFSETS[0]);

    let j = k.rotate_60_right().rotate_60_right();

    assert_eq!(j.to_arr(), [0, -1, 1]);
}

#[test]
fn doop() {}

#[test]
fn mesh_test_mesh() {
    let k1 = Axial::from_arr([2, 0]);
    let k2 = Axial::from_arr([2, -2]);
    let k3 = Axial::from_arr([-2, 1]);

    let mut mesh = SmallMesh::new();
    mesh.add(k1);
    mesh.add(k2);
    mesh.add(k3);

    assert!(mesh.is_set(k1));
    assert!(mesh.is_set(k2));
    assert!(mesh.is_set(k3));
    assert!(!mesh.is_set(Axial::from_arr([-2, 2])));

    let res: Vec<Axial> = mesh.iter_mesh(Axial::from_arr([0; 2]));

    assert_eq!(
        res,
        vec!(
            Axial::from_arr([-2, 1]),
            Axial::from_arr([2, -2]),
            Axial::from_arr([2, 0])
        )
    )
}

#[test]
fn test_dis_to_hex_border() {
    let size = 3;

    let ll: Vec<Axial> = Cube::new(0, 0).range(size).iter().map(|x| x.to_axial()).collect();
    let mesh = SmallMesh::from_iter(&ll);

    for q in -8..8 {
        for r in -8..8 {
            let unit = Axial { q, r };
            if mesh.is_set(unit) {
                for i in 0..6 {
                    let ray = unit.to_cube().ray_from_vector(Cube::from_arr(OFFSETS[i]), 20);
                    let true_dis = ray.iter().take_while(|x| mesh.is_set(x.to_axial())).count() as i8;

                    let computed_dis = dis_to_hex_of_hexagon(unit, HDir::from_u8(i as u8), 3);

                    assert_eq!(true_dis, computed_dis);
                }
            }
        }
    }
}
